use vstd::prelude::*;
use vstd::string::*;

verus! {

/// `sep` occurs in `s` starting at index `i`.
pub open spec fn occurs_at(s: Seq<char>, sep: Seq<char>, i: int) -> bool {
    &&& 0 <= i
    &&& i + sep.len() <= s.len()
    &&& s.subrange(i, i + sep.len()) == sep
}

/// The pieces of `s` cut at the occurrences of `sep`, found from left to
/// right without overlap; the scan stands at `pos` and the current piece
/// began at `start`.
pub open spec fn split_scan(s: Seq<char>, sep: Seq<char>, start: int, pos: int) -> Seq<Seq<char>>
    decreases s.len() - pos,
{
    if sep.len() == 0 || pos < 0 || pos + sep.len() > s.len() {
        seq![s.subrange(start, s.len() as int)]
    } else if s.subrange(pos, pos + sep.len()) == sep {
        seq![s.subrange(start, pos)] + split_scan(s, sep, pos + sep.len(), pos + sep.len())
    } else {
        split_scan(s, sep, start, pos + 1)
    }
}

/// `s` split at every occurrence of `sep`, as `str::split` does with a
/// string pattern.
pub open spec fn split(s: Seq<char>, sep: Seq<char>) -> Seq<Seq<char>> {
    split_scan(s, sep, 0, 0)
}

/// The pieces written one after another with `sep` between each two.
pub open spec fn join(pieces: Seq<Seq<char>>, sep: Seq<char>) -> Seq<char>
    decreases pieces.len(),
{
    if pieces.len() == 0 {
        seq![]
    } else if pieces.len() == 1 {
        pieces[0]
    } else {
        pieces[0] + sep + join(pieces.drop_first(), sep)
    }
}

/// `m` is the first index at which `c` stands in `sep`.
pub open spec fn first_index_of(sep: Seq<char>, c: char, m: int) -> bool {
    &&& 0 <= m < sep.len()
    &&& sep[m] == c
    &&& forall|t: int| 0 <= t < m ==> sep[t] != c
}

/// Moving the scan over a prefix that it has passed does not change the
/// pieces it finds.
proof fn lemma_split_shift(s: Seq<char>, sep: Seq<char>, k: int, start: int, pos: int)
    requires
        0 <= k <= start <= pos <= s.len(),
    ensures
        split_scan(s, sep, start, pos) == split_scan(s.skip(k), sep, start - k, pos - k),
    decreases s.len() - pos,
{
    let t = s.skip(k);
    if sep.len() == 0 || pos + sep.len() > s.len() {
        assert(s.subrange(start, s.len() as int) =~= t.subrange(start - k, t.len() as int));
    } else {
        assert(s.subrange(pos, pos + sep.len()) =~= t.subrange(pos - k, pos - k + sep.len()));
        if s.subrange(pos, pos + sep.len()) == sep {
            assert(s.subrange(start, pos) =~= t.subrange(start - k, pos - k));
            lemma_split_shift(s, sep, k, pos + sep.len(), pos + sep.len());
        } else {
            lemma_split_shift(s, sep, k, start, pos + 1);
        }
    }
}

/// Where `sep` does not occur from `pos` on, the current piece runs to the end.
proof fn lemma_split_no_match(s: Seq<char>, sep: Seq<char>, start: int, pos: int)
    requires
        0 <= start <= pos,
        forall|j: int| pos <= j ==> !occurs_at(s, sep, j),
    ensures
        split_scan(s, sep, start, pos) == seq![s.subrange(start, s.len() as int)],
    decreases s.len() - pos,
{
    if sep.len() == 0 || pos + sep.len() > s.len() {
    } else {
        assert(!occurs_at(s, sep, pos));
        lemma_split_no_match(s, sep, start, pos + 1);
    }
}

/// Where the first occurrence of `sep` at or after `pos` is at `at`, the
/// current piece ends there and the scan resumes after it.
proof fn lemma_split_first(s: Seq<char>, sep: Seq<char>, at: int, start: int, pos: int)
    requires
        sep.len() > 0,
        0 <= start <= pos <= at,
        occurs_at(s, sep, at),
        forall|j: int| pos <= j < at ==> !occurs_at(s, sep, j),
    ensures
        split_scan(s, sep, start, pos) == seq![s.subrange(start, at)] + split_scan(
            s,
            sep,
            at + sep.len(),
            at + sep.len(),
        ),
    decreases at - pos,
{
    if pos < at {
        assert(!occurs_at(s, sep, pos));
        lemma_split_first(s, sep, at, start, pos + 1);
    }
}

/// A text without `c` holds no occurrence of a separator that contains `c`.
pub proof fn lemma_no_occurrence(s: Seq<char>, sep: Seq<char>, c: char, m: int)
    requires
        first_index_of(sep, c, m),
        !s.contains(c),
    ensures
        forall|j: int| !occurs_at(s, sep, j),
        no_occurrence(s, sep),
{
    assert forall|j: int| !occurs_at(s, sep, j) by {
        if occurs_at(s, sep, j) {
            assert(s.subrange(j, j + sep.len())[m] == sep[m]);
            assert(s[j + m] == c);
        }
    }
}

/// Splitting a text without `c` at a separator that contains `c` gives the
/// text itself as the only piece.
pub proof fn lemma_split_without(s: Seq<char>, sep: Seq<char>, c: char, m: int)
    requires
        first_index_of(sep, c, m),
        !s.contains(c),
    ensures
        split(s, sep) == seq![s],
{
    lemma_no_occurrence(s, sep, c, m);
    lemma_split_no_match(s, sep, 0, 0);
    assert(s.subrange(0, s.len() as int) =~= s);
}

/// In `a + sep + rest`, where `a` lacks `c`, `sep` does not occur before
/// the end of `a`.
proof fn lemma_no_early_match(a: Seq<char>, sep: Seq<char>, rest: Seq<char>, c: char, m: int)
    requires
        first_index_of(sep, c, m),
        !a.contains(c),
    ensures
        forall|j: int| 0 <= j < a.len() ==> !occurs_at(a + sep + rest, sep, j),
        occurs_at(a + sep + rest, sep, a.len() as int),
{
    let s = a + sep + rest;
    assert forall|j: int| 0 <= j < a.len() implies !occurs_at(s, sep, j) by {
        if occurs_at(s, sep, j) {
            assert(s.subrange(j, j + sep.len())[m] == sep[m]);
            assert(s[j + m] == c);
            if j + m < a.len() {
                assert(a[j + m] == c);
            } else {
                let t = j + m - a.len();
                assert(s[j + m] == sep[t]);
            }
        }
    }
    assert(s.subrange(a.len() as int, (a.len() + sep.len()) as int) =~= sep);
}

/// Splitting `a + sep + rest`, where `a` lacks `c`, gives `a` and then the
/// pieces of `rest`.
pub proof fn lemma_split_cons(a: Seq<char>, sep: Seq<char>, rest: Seq<char>, c: char, m: int)
    requires
        first_index_of(sep, c, m),
        !a.contains(c),
    ensures
        split(a + sep + rest, sep) == seq![a] + split(rest, sep),
{
    let s = a + sep + rest;
    lemma_no_early_match(a, sep, rest, c, m);
    lemma_split_first(s, sep, a.len() as int, 0, 0);
    let k = (a.len() + sep.len()) as int;
    lemma_split_shift(s, sep, k, k, k);
    assert(s.skip(k) =~= rest);
    assert(s.subrange(0, a.len() as int) =~= a);
}

/// `sep` occurs nowhere in `s`.
pub open spec fn no_occurrence(s: Seq<char>, sep: Seq<char>) -> bool {
    forall|j: int| !occurs_at(s, sep, j)
}

/// A text in which the separator does not occur splits into itself.
pub proof fn lemma_split_whole(s: Seq<char>, sep: Seq<char>)
    requires
        no_occurrence(s, sep),
    ensures
        split(s, sep) == seq![s],
{
    lemma_split_no_match(s, sep, 0, 0);
    assert(s.subrange(0, s.len() as int) =~= s);
}

/// Splitting `a + sep + rest` gives `a` and then the pieces of `rest`, where
/// `sep` does not occur in `a` followed by all of `sep` but its last
/// character (so no occurrence begins inside `a`).
pub proof fn lemma_split_cons_clear(a: Seq<char>, sep: Seq<char>, rest: Seq<char>)
    requires
        sep.len() > 0,
        no_occurrence(a + sep.drop_last(), sep),
    ensures
        split(a + sep + rest, sep) == seq![a] + split(rest, sep),
{
    let s = a + sep + rest;
    let t = a + sep.drop_last();
    assert forall|j: int| 0 <= j < a.len() implies !occurs_at(s, sep, j) by {
        if occurs_at(s, sep, j) {
            assert(s.subrange(j, j + sep.len()) =~= t.subrange(j, j + sep.len()));
            assert(occurs_at(t, sep, j));
        }
    }
    assert(s.subrange(a.len() as int, (a.len() + sep.len()) as int) =~= sep);
    lemma_split_first(s, sep, a.len() as int, 0, 0);
    let k = (a.len() + sep.len()) as int;
    lemma_split_shift(s, sep, k, k, k);
    assert(s.skip(k) =~= rest);
    assert(s.subrange(0, a.len() as int) =~= a);
}

/// Splitting pieces joined by `sep` gives the pieces back, when none of
/// them holds `c`, a character of `sep`.
pub proof fn lemma_split_join(pieces: Seq<Seq<char>>, sep: Seq<char>, c: char, m: int)
    requires
        first_index_of(sep, c, m),
        pieces.len() >= 1,
        forall|i: int| 0 <= i < pieces.len() ==> !(#[trigger] pieces[i]).contains(c),
    ensures
        split(join(pieces, sep), sep) == pieces,
    decreases pieces.len(),
{
    if pieces.len() == 1 {
        lemma_split_without(pieces[0], sep, c, m);
        assert(seq![pieces[0]] =~= pieces);
    } else {
        let rest = pieces.drop_first();
        assert forall|i: int| 0 <= i < rest.len() implies !(#[trigger] rest[i]).contains(c) by {
            assert(rest[i] == pieces[i + 1]);
        }
        lemma_split_join(rest, sep, c, m);
        lemma_split_cons(pieces[0], sep, join(rest, sep), c, m);
        assert(seq![pieces[0]] + rest =~= pieces);
    }
}


/// The texts that a sequence of character vectors holds.
pub open spec fn char_views(v: Seq<Vec<char>>) -> Seq<Seq<char>> {
    v.map_values(|p: Vec<char>| p@)
}

/// The texts that a sequence of strings holds.
pub open spec fn string_views(v: Seq<String>) -> Seq<Seq<char>> {
    v.map_values(|p: String| p@)
}

/// Appends one character to a string (`String::push`).
#[verifier::external_body]
fn push_char(s: &mut String, c: char)
    ensures
        final(s)@ == old(s)@.push(c),
{
    s.push(c);
}

/// The characters of a text.
pub fn chars_of(s: &str) -> (v: Vec<char>)
    ensures
        v@ == s@,
{
    let n = s.unicode_len();
    let mut v: Vec<char> = Vec::new();
    let mut i: usize = 0;
    while i < n
        invariant
            n == s@.len(),
            i <= n,
            v@ == s@.subrange(0, i as int),
        decreases n - i,
    {
        let c = s.get_char(i);
        v.push(c);
        i = i + 1;
        assert(v@ =~= s@.subrange(0, i as int));
    }
    assert(v@ =~= s@);
    v
}

/// The string made of the given characters.
pub fn string_of(v: &Vec<char>) -> (s: String)
    ensures
        s@ == v@,
{
    let mut s = String::new();
    let mut i: usize = 0;
    while i < v.len()
        invariant
            i <= v.len(),
            s@ == v@.subrange(0, i as int),
        decreases v.len() - i,
    {
        push_char(&mut s, v[i]);
        i = i + 1;
        assert(s@ =~= v@.subrange(0, i as int));
    }
    assert(s@ =~= v@);
    s
}

/// The characters of `s` from `from` up to `to`.
pub fn slice_chars(s: &Vec<char>, from: usize, to: usize) -> (v: Vec<char>)
    requires
        from <= to <= s.len(),
    ensures
        v@ == s@.subrange(from as int, to as int),
{
    let mut v: Vec<char> = Vec::new();
    let mut i: usize = from;
    while i < to
        invariant
            from <= i <= to <= s.len(),
            v@ == s@.subrange(from as int, i as int),
        decreases to - i,
    {
        v.push(s[i]);
        i = i + 1;
        assert(v@ =~= s@.subrange(from as int, i as int));
    }
    v
}

/// Whether `sep` stands in `s` at `pos`, where it fits.
pub fn matches_at(s: &Vec<char>, sep: &Vec<char>, pos: usize) -> (b: bool)
    requires
        pos + sep.len() <= s.len(),
    ensures
        b == (s@.subrange(pos as int, pos + sep.len()) == sep@),
{
    let mut j: usize = 0;
    while j < sep.len()
        invariant
            pos + sep.len() <= s.len(),
            j <= sep.len(),
            forall|t: int| 0 <= t < j ==> s@[pos + t] == sep@[t],
        decreases sep.len() - j,
    {
        if s[pos + j] != sep[j] {
            assert(s@.subrange(pos as int, pos + sep.len())[j as int] != sep@[j as int]);
            return false;
        }
        j = j + 1;
    }
    assert(s@.subrange(pos as int, pos + sep.len()) =~= sep@);
    true
}

/// Whether two character sequences are equal.
pub fn same_chars(a: &Vec<char>, b: &Vec<char>) -> (r: bool)
    ensures
        r == (a@ == b@),
{
    if a.len() != b.len() {
        return false;
    }
    let m = matches_at(a, b, 0);
    assert(a@.subrange(0, b.len() as int) =~= a@);
    m
}

/// The pieces of `s` between the occurrences of `sep`.
pub fn split_chars(s: &Vec<char>, sep: &Vec<char>) -> (pieces: Vec<Vec<char>>)
    ensures
        char_views(pieces@) == split(s@, sep@),
{
    let n = s.len();
    let l = sep.len();
    let mut out: Vec<Vec<char>> = Vec::new();
    if l == 0 {
        out.push(slice_chars(s, 0, n));
        assert(char_views(out@) =~= split(s@, sep@));
        return out;
    }
    let mut start: usize = 0;
    let mut pos: usize = 0;
    while pos < n && l <= n - pos
        invariant
            n == s.len(),
            l == sep.len(),
            l > 0,
            start <= pos <= n,
            char_views(out@) + split_scan(s@, sep@, start as int, pos as int) == split(s@, sep@),
        decreases n - pos,
    {
        let ghost before = char_views(out@);
        if matches_at(s, sep, pos) {
            let piece = slice_chars(s, start, pos);
            out.push(piece);
            assert(char_views(out@) =~= before.push(piece@));
            pos = pos + l;
            start = pos;
        } else {
            pos = pos + 1;
        }
    }
    let ghost before = char_views(out@);
    let last = slice_chars(s, start, n);
    out.push(last);
    assert(char_views(out@) =~= before.push(last@));
    out
}

/// The strings holding the given character vectors.
pub fn strings_of(v: &Vec<Vec<char>>) -> (out: Vec<String>)
    ensures
        string_views(out@) == char_views(v@),
{
    let mut out: Vec<String> = Vec::new();
    let mut i: usize = 0;
    while i < v.len()
        invariant
            i <= v.len(),
            string_views(out@) == char_views(v@).subrange(0, i as int),
        decreases v.len() - i,
    {
        let ghost before = string_views(out@);
        let t = string_of(&v[i]);
        let ghost tv = t@;
        out.push(t);
        assert(string_views(out@) =~= before.push(tv));
        assert(char_views(v@).subrange(0, i + 1) =~= char_views(v@).subrange(0, i as int).push(
            v@[i as int]@,
        ));
        i = i + 1;
    }
    assert(char_views(v@).subrange(0, i as int) =~= char_views(v@));
    out
}


/// The characters that `char::is_whitespace` accepts: those with the
/// Unicode White_Space property.
pub open spec fn is_white(c: char) -> bool {
    let u = c as u32;
    ||| 0x09 <= u <= 0x0d
    ||| u == 0x20
    ||| u == 0x85
    ||| u == 0xa0
    ||| u == 0x1680
    ||| 0x2000 <= u <= 0x200a
    ||| u == 0x2028
    ||| u == 0x2029
    ||| u == 0x202f
    ||| u == 0x205f
    ||| u == 0x3000
}

/// `s` without its trailing white space.
pub open spec fn trim_end(s: Seq<char>) -> Seq<char>
    decreases s.len(),
{
    if s.len() > 0 && is_white(s.last()) {
        trim_end(s.drop_last())
    } else {
        s
    }
}

/// `s` without its leading white space.
pub open spec fn trim_start(s: Seq<char>) -> Seq<char>
    decreases s.len(),
{
    if s.len() > 0 && is_white(s[0]) {
        trim_start(s.drop_first())
    } else {
        s
    }
}

/// `s` without leading and trailing white space.
pub open spec fn trim(s: Seq<char>) -> Seq<char> {
    trim_end(trim_start(s))
}

/// Whether `c` is white space.
pub fn white(c: char) -> (b: bool)
    ensures
        b == is_white(c),
{
    let u = c as u32;
    (0x09 <= u && u <= 0x0d) || u == 0x20 || u == 0x85 || u == 0xa0 || u == 0x1680 || (0x2000
        <= u && u <= 0x200a) || u == 0x2028 || u == 0x2029 || u == 0x202f || u == 0x205f || u
        == 0x3000
}

/// `s` without its trailing white space (`str::trim_end`).
pub fn trim_end_chars(s: &Vec<char>) -> (t: Vec<char>)
    ensures
        t@ == trim_end(s@),
{
    let mut j: usize = s.len();
    assert(s@.subrange(0, j as int) =~= s@);
    while j > 0 && white(s[j - 1])
        invariant
            j <= s.len(),
            trim_end(s@) == trim_end(s@.subrange(0, j as int)),
        decreases j,
    {
        assert(s@.subrange(0, j as int).drop_last() =~= s@.subrange(0, j - 1));
        j = j - 1;
    }
    let t = slice_chars(s, 0, j);
    assert(trim_end(s@.subrange(0, j as int)) == s@.subrange(0, j as int));
    t
}

/// `s` without leading and trailing white space (`str::trim`).
pub fn trim_chars(s: &Vec<char>) -> (t: Vec<char>)
    ensures
        t@ == trim(s@),
{
    let mut i: usize = 0;
    assert(s@.subrange(0, s.len() as int) =~= s@);
    while i < s.len() && white(s[i])
        invariant
            i <= s.len(),
            trim_start(s@) == trim_start(s@.subrange(i as int, s.len() as int)),
        decreases s.len() - i,
    {
        assert(s@.subrange(i as int, s.len() as int).drop_first() =~= s@.subrange(
            i + 1,
            s.len() as int,
        ));
        i = i + 1;
    }
    let rest = slice_chars(s, i, s.len());
    trim_end_chars(&rest)
}

/// A text whose trailing trim leaves nothing is all white space.
proof fn lemma_trim_end_empty(s: Seq<char>)
    requires
        trim_end(s).len() == 0,
    ensures
        forall|i: int| 0 <= i < s.len() ==> is_white(s[i]),
    decreases s.len(),
{
    if s.len() > 0 {
        lemma_trim_end_empty(s.drop_last());
        assert forall|i: int| 0 <= i < s.len() implies is_white(s[i]) by {
            if i < s.len() - 1 {
                assert(s.drop_last()[i] == s[i]);
            }
        }
    }
}

/// The leading trim of a text is empty or starts with a character that is
/// not white space.
proof fn lemma_trim_start_head(s: Seq<char>)
    ensures
        trim_start(s).len() == 0 || !is_white(trim_start(s)[0]),
    decreases s.len(),
{
    if s.len() > 0 && is_white(s[0]) {
        lemma_trim_start_head(s.drop_first());
    }
}

/// Leading white space that trims away entirely also trims away in front
/// of more text.
proof fn lemma_trim_start_concat(x: Seq<char>, y: Seq<char>)
    requires
        trim_start(x).len() == 0,
    ensures
        trim_start(x + y) == trim_start(y),
    decreases x.len(),
{
    if x.len() > 0 {
        assert((x + y).drop_first() =~= x.drop_first() + y);
        lemma_trim_start_concat(x.drop_first(), y);
    } else {
        assert(x + y =~= y);
    }
}

/// Text `h` that neither starts nor ends with white space, written after
/// text that trims to nothing and followed by a line break, trims to `h`.
pub proof fn lemma_trim_appended_line(x: Seq<char>, h: Seq<char>)
    requires
        trim(x).len() == 0,
        h.len() > 0,
        !is_white(h[0]),
        !is_white(h.last()),
    ensures
        trim(x + (h + seq!['\n'])) == h,
{
    lemma_trim_start_head(x);
    if trim_start(x).len() > 0 {
        lemma_trim_end_empty(trim_start(x));
        assert(false);
    }
    let y = h + seq!['\n'];
    lemma_trim_start_concat(x, y);
    assert(trim_start(y) == y);
    assert(y.drop_last() =~= h);
    assert(y.last() == '\n');
    assert(('\n' as u32) == 0x0a);
    assert(is_white(y.last()));
    assert(trim_end(y) == trim_end(h));
    assert(trim_end(h) == h);
}


/// The pieces that the scan finds past a stretch free of `c` hold no `c`.
proof fn lemma_split_scan_clear(s: Seq<char>, c: char, start: int, pos: int)
    requires
        0 <= start <= pos <= s.len(),
        forall|j: int| start <= j < pos ==> s[j] != c,
    ensures
        forall|i: int|
            0 <= i < split_scan(s, seq![c], start, pos).len() ==> !(#[trigger] split_scan(
                s,
                seq![c],
                start,
                pos,
            )[i]).contains(c),
    decreases s.len() - pos,
{
    let sep = seq![c];
    let v = split_scan(s, sep, start, pos);
    if pos + 1 > s.len() {
        let piece = s.subrange(start, s.len() as int);
        assert(v == seq![piece]);
        assert forall|i: int| 0 <= i < v.len() implies !(#[trigger] v[i]).contains(c) by {
            assert(v[i] == piece);
            if piece.contains(c) {
                let t = choose|t: int| 0 <= t < piece.len() && piece[t] == c;
                assert(s[start + t] == c);
            }
        }
    } else if s.subrange(pos, pos + 1) == sep {
        lemma_split_scan_clear(s, c, pos + 1, pos + 1);
        let rest = split_scan(s, sep, pos + 1, pos + 1);
        let piece = s.subrange(start, pos);
        assert(v == seq![piece] + rest);
        assert forall|i: int| 0 <= i < v.len() implies !(#[trigger] v[i]).contains(c) by {
            if i == 0 {
                if piece.contains(c) {
                    let t = choose|t: int| 0 <= t < piece.len() && piece[t] == c;
                    assert(s[start + t] == c);
                }
            } else {
                assert(v[i] == rest[i - 1]);
            }
        }
    } else {
        assert(s[pos] != c) by {
            if s[pos] == c {
                assert(s.subrange(pos, pos + 1) =~= sep);
            }
        }
        lemma_split_scan_clear(s, c, start, pos + 1);
        assert(v == split_scan(s, sep, start, pos + 1));
    }
}

/// The pieces of a text cut at a character hold no such character.
pub proof fn lemma_split_clear(s: Seq<char>, c: char)
    ensures
        forall|i: int|
            0 <= i < split(s, seq![c]).len() ==> !(#[trigger] split(s, seq![c])[i]).contains(c),
{
    lemma_split_scan_clear(s, c, 0, 0);
}

/// Where the scan has passed no occurrence and finds two pieces or more,
/// the first piece ends at the first occurrence.
proof fn lemma_split_scan_head(s: Seq<char>, sep: Seq<char>, pos: int) -> (a: int)
    requires
        sep.len() > 0,
        0 <= pos <= s.len(),
        forall|j: int| 0 <= j < pos ==> !occurs_at(s, sep, j),
        split_scan(s, sep, 0, pos).len() >= 2,
    ensures
        0 <= a,
        occurs_at(s, sep, a),
        forall|j: int| 0 <= j < a ==> !occurs_at(s, sep, j),
        split_scan(s, sep, 0, pos)[0] == s.subrange(0, a),
    decreases s.len() - pos,
{
    if pos + sep.len() > s.len() {
        assert(split_scan(s, sep, 0, pos).len() == 1);
        0
    } else if s.subrange(pos, pos + sep.len()) == sep {
        pos
    } else {
        lemma_split_scan_head(s, sep, pos + 1)
    }
}

/// The first of two or more pieces ends at the first occurrence of the
/// separator.
pub proof fn lemma_split_head(s: Seq<char>, sep: Seq<char>) -> (a: int)
    requires
        sep.len() > 0,
        split(s, sep).len() >= 2,
    ensures
        0 <= a,
        occurs_at(s, sep, a),
        forall|j: int| 0 <= j < a ==> !occurs_at(s, sep, j),
        split(s, sep)[0] == s.subrange(0, a),
{
    lemma_split_scan_head(s, sep, 0)
}

/// A text with an occurrence of the separator, followed by more text,
/// still has two or more pieces, and the same first one.
pub proof fn lemma_split_head_extend(s: Seq<char>, sep: Seq<char>, x: Seq<char>)
    requires
        sep.len() > 0,
        split(s, sep).len() >= 2,
    ensures
        split(s + x, sep).len() >= 2,
        split(s + x, sep)[0] == split(s, sep)[0],
{
    let a = lemma_split_head(s, sep);
    let t = s + x;
    assert(t.subrange(a, a + sep.len()) =~= s.subrange(a, a + sep.len()));
    assert forall|j: int| 0 <= j < a implies !occurs_at(t, sep, j) by {
        assert(!occurs_at(s, sep, j));
        assert(j + sep.len() <= s.len());
        assert(t.subrange(j, j + sep.len()) =~= s.subrange(j, j + sep.len()));
    }
    lemma_split_first(t, sep, a, 0, 0);
    lemma_split_scan_nonempty(t, sep, a + sep.len(), a + sep.len());
    assert(t.subrange(0, a) =~= s.subrange(0, a));
}

/// The first of two or more pieces, followed by the separator without its
/// last character, holds no occurrence of the separator.
pub proof fn lemma_split_head_clear(s: Seq<char>, sep: Seq<char>)
    requires
        sep.len() > 0,
        split(s, sep).len() >= 2,
    ensures
        no_occurrence(split(s, sep)[0] + sep.drop_last(), sep),
        split(s, sep)[0].len() + sep.len() <= s.len(),
        s.subrange(0, split(s, sep)[0].len() as int) == split(s, sep)[0],
{
    let a = lemma_split_head(s, sep);
    let k = s.subrange(0, a);
    let l = sep.len() as int;
    let t = k + sep.drop_last();
    assert(occurs_at(s, sep, a));
    let m = s.subrange(a, a + l);
    assert(m == sep);
    assert forall|i: int| 0 <= i < t.len() implies t[i] == s[i] by {
        if i >= a {
            assert(m[i - a] == s[i]);
        }
    }
    assert forall|j: int| !occurs_at(t, sep, j) by {
        if occurs_at(t, sep, j) {
            assert(j < a);
            let w = s.subrange(j, j + l);
            assert(w =~= t.subrange(j, j + l)) by {
                assert forall|i: int| 0 <= i < l implies w[i] == t.subrange(j, j + l)[i] by {
                    assert(t[j + i] == s[j + i]);
                }
            }
            assert(occurs_at(s, sep, j));
        }
    }
}

/// A text splits at a line character into the pieces before its last
/// such character and what follows it: the text is a part that is empty
/// or ends in `c`, then a part without `c`.
pub proof fn lemma_last_piece(s: Seq<char>, c: char) -> (xt: (Seq<char>, Seq<char>))
    ensures
        s == xt.0 + xt.1,
        xt.0.len() == 0 || xt.0.last() == c,
        !xt.1.contains(c),
    decreases s.len(),
{
    if s.len() == 0 {
        (s, s)
    } else if s.last() == c {
        let e = Seq::<char>::empty();
        assert(s + e =~= s);
        (s, e)
    } else {
        let (x, t) = lemma_last_piece(s.drop_last(), c);
        let t2 = t.push(s.last());
        assert(s =~= s.drop_last().push(s.last()));
        assert(s =~= x + t2);
        if t2.contains(c) {
            let i = choose|i: int| 0 <= i < t2.len() && t2[i] == c;
            if i < t.len() {
                assert(t[i] == c);
            }
        }
        (x, t2)
    }
}

/// The scan always finds at least one piece.
pub proof fn lemma_split_scan_nonempty(s: Seq<char>, sep: Seq<char>, start: int, pos: int)
    ensures
        split_scan(s, sep, start, pos).len() >= 1,
    decreases s.len() - pos,
{
    if sep.len() == 0 || pos < 0 || pos + sep.len() > s.len() {
    } else if s.subrange(pos, pos + sep.len()) == sep {
        lemma_split_scan_nonempty(s, sep, pos + sep.len(), pos + sep.len());
    } else {
        lemma_split_scan_nonempty(s, sep, start, pos + 1);
    }
}

proof fn lemma_split_after_char_scan(x: Seq<char>, y: Seq<char>, c: char, start: int, pos: int)
    requires
        x.len() > 0,
        x.last() == c,
        0 <= start <= pos < x.len(),
    ensures
        split_scan(x + y, seq![c], start, pos) == split_scan(x, seq![c], start, pos).drop_last()
            + split_scan(x + y, seq![c], x.len() as int, x.len() as int),
    decreases x.len() - pos,
{
    let s = x + y;
    let sep = seq![c];
    assert(s.subrange(pos, pos + 1) =~= x.subrange(pos, pos + 1));
    if x.subrange(pos, pos + 1) == sep {
        assert(s.subrange(start, pos) =~= x.subrange(start, pos));
        if pos + 1 == x.len() {
            assert(x.subrange(x.len() as int, x.len() as int) =~= seq![]);
            assert(split_scan(x, sep, pos + 1, pos + 1) == seq![Seq::<char>::empty()]);
            assert((seq![x.subrange(start, pos)] + seq![Seq::<char>::empty()]).drop_last() =~= seq![
                x.subrange(start, pos),
            ]);
        } else {
            lemma_split_after_char_scan(x, y, c, pos + 1, pos + 1);
            lemma_split_scan_nonempty(x, sep, pos + 1, pos + 1);
            let r = split_scan(x, sep, pos + 1, pos + 1);
            assert((seq![x.subrange(start, pos)] + r).drop_last() =~= seq![x.subrange(start, pos)]
                + r.drop_last());
        }
    } else {
        assert(x.subrange(pos, pos + 1)[0] == x[pos]);
        if pos + 1 == x.len() {
            assert(x.subrange(pos, pos + 1) =~= sep);
        }
        lemma_split_after_char_scan(x, y, c, start, pos + 1);
    }
}

/// Splitting at a single character a text that follows a text ending in
/// that character: the pieces of the first text, without the empty piece
/// at its end, then the pieces of the second.
pub proof fn lemma_split_after_char(x: Seq<char>, y: Seq<char>, c: char)
    requires
        x.len() > 0,
        x.last() == c,
    ensures
        split(x + y, seq![c]) == split(x, seq![c]).drop_last() + split(y, seq![c]),
        split(x, seq![c]).last() == Seq::<char>::empty(),
{
    lemma_split_after_char_scan(x, y, c, 0, 0);
    lemma_split_shift(x + y, seq![c], x.len() as int, x.len() as int, x.len() as int);
    assert((x + y).skip(x.len() as int) =~= y);
    lemma_split_after_char_scan(x, seq![], c, 0, 0);
    lemma_split_shift(x + seq![], seq![c], x.len() as int, x.len() as int, x.len() as int);
    assert(x + seq![] =~= x);
    assert(x.skip(x.len() as int) =~= seq![]);
    assert(split(seq![], seq![c]) == seq![Seq::<char>::empty()]) by {
        assert(Seq::<char>::empty().subrange(0, 0) =~= Seq::<char>::empty());
    }
    lemma_split_scan_nonempty(x, seq![c], 0, 0);
}

/// Two texts joined hold a character exactly where one of them does.
pub proof fn lemma_concat_contains(a: Seq<char>, b: Seq<char>, c: char)
    ensures
        (a + b).contains(c) <==> a.contains(c) || b.contains(c),
{
    if (a + b).contains(c) {
        let i = choose|i: int| 0 <= i < (a + b).len() && (a + b)[i] == c;
        if i < a.len() {
            assert(a[i] == c);
        } else {
            assert(b[i - a.len()] == c);
        }
    }
    if a.contains(c) {
        let i = choose|i: int| 0 <= i < a.len() && a[i] == c;
        assert((a + b)[i] == c);
    }
    if b.contains(c) {
        let i = choose|i: int| 0 <= i < b.len() && b[i] == c;
        assert((a + b)[i + a.len()] == c);
    }
}

/// Joined pieces hold a character only where a piece or the separator does.
pub proof fn lemma_join_excludes(pieces: Seq<Seq<char>>, sep: Seq<char>, c: char)
    requires
        !sep.contains(c),
        forall|i: int| 0 <= i < pieces.len() ==> !(#[trigger] pieces[i]).contains(c),
    ensures
        !join(pieces, sep).contains(c),
    decreases pieces.len(),
{
    if pieces.len() >= 2 {
        let rest = pieces.drop_first();
        assert forall|i: int| 0 <= i < rest.len() implies !(#[trigger] rest[i]).contains(c) by {
            assert(rest[i] == pieces[i + 1]);
        }
        lemma_join_excludes(rest, sep, c);
        lemma_concat_contains(pieces[0], sep, c);
        lemma_concat_contains(pieces[0] + sep, join(rest, sep), c);
    } else if pieces.len() == 1 {
        assert(!pieces[0].contains(c));
    }
}

} // verus!
