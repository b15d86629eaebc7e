use vstd::prelude::*;
use crate::text::{
    char_views, chars_of, first_index_of, lemma_concat_contains, lemma_last_piece,
    lemma_split_after_char, lemma_split_clear, lemma_split_cons, lemma_split_cons_clear,
    lemma_split_head_clear, lemma_split_head_extend, lemma_split_scan_nonempty,
    lemma_split_whole, lemma_split_without, no_occurrence, same_chars, slice_chars, split,
    split_chars, string_of, trim_end, trim_end_chars,
};

verus! {

/// A stored record: a key and its encrypted data.
pub struct Record {
    pub key: String,
    pub data: String,
}

/// The separator between a record's key and its data on a storage line.
pub open spec fn record_sep() -> Seq<char> {
    seq![' ', '|', '|', '|', ' ']
}

/// The storage line of a record, as its `Display` writes it.
pub open spec fn record_line(key: Seq<char>, data: Seq<char>) -> Seq<char> {
    key + record_sep() + data
}

/// A line without the carriage return that ends it, if any.
pub open spec fn strip_cr(l: Seq<char>) -> Seq<char> {
    if l.len() > 0 && l.last() == '\r' {
        l.drop_last()
    } else {
        l
    }
}

/// The lines of a text as `BufRead::lines` yields them: cut at each line
/// break, each line ended by a break without the carriage return before
/// it, and a last line without a break only where it is not empty.
pub open spec fn lines_of(text: Seq<char>) -> Seq<Seq<char>> {
    let p = split(text, seq!['\n']);
    p.drop_last().map_values(|l: Seq<char>| strip_cr(l)) + if p.last().len() > 0 {
        seq![p.last()]
    } else {
        seq![]
    }
}

/// The key and data of a storage line: the first two pieces between record
/// separators; nothing where the line has no separator.
pub open spec fn parse_line(l: Seq<char>) -> Option<(Seq<char>, Seq<char>)> {
    let v = split(l, record_sep());
    if v.len() >= 2 {
        Some((v[0], v[1]))
    } else {
        None
    }
}

/// The records of the lines, or nothing where a line has no separator.
pub open spec fn parse_lines(ls: Seq<Seq<char>>) -> Option<Seq<(Seq<char>, Seq<char>)>>
    decreases ls.len(),
{
    if ls.len() == 0 {
        Some(seq![])
    } else {
        match (parse_lines(ls.drop_last()), parse_line(ls.last())) {
            (Some(a), Some(r)) => Some(a.push(r)),
            _ => None,
        }
    }
}

/// The records of a storage text, in the order of its lines.
pub open spec fn parse_storage_spec(text: Seq<char>) -> Option<Seq<(Seq<char>, Seq<char>)>> {
    parse_lines(lines_of(text))
}

/// A storage text that parses and whose last line, if any, is ended.
pub open spec fn storage_well_formed(text: Seq<char>) -> bool {
    &&& parse_storage_spec(text) is Some
    &&& (text.len() == 0 || text.last() == '\n')
}

/// The data of the last record with the given key.
pub open spec fn lookup(recs: Seq<(Seq<char>, Seq<char>)>, key: Seq<char>) -> Option<Seq<char>>
    decreases recs.len(),
{
    if recs.len() == 0 {
        None
    } else if recs.last().0 == key {
        Some(recs.last().1)
    } else {
        lookup(recs.drop_last(), key)
    }
}

/// The keys of the records, each once, in the order of their first record.
pub open spec fn distinct_keys(recs: Seq<(Seq<char>, Seq<char>)>) -> Seq<Seq<char>>
    decreases recs.len(),
{
    if recs.len() == 0 {
        seq![]
    } else {
        let ks = distinct_keys(recs.drop_last());
        if ks.contains(recs.last().0) {
            ks
        } else {
            ks.push(recs.last().0)
        }
    }
}

/// Each key followed by a line break.
pub open spec fn key_lines(ks: Seq<Seq<char>>) -> Seq<char>
    decreases ks.len(),
{
    if ks.len() == 0 {
        seq![]
    } else {
        key_lines(ks.drop_last()) + ks.last() + seq!['\n']
    }
}

/// The daemon's listing of the keys of a storage text, one per line.
pub open spec fn list_spec(text: Seq<char>) -> Option<Seq<char>> {
    match parse_storage_spec(text) {
        Some(recs) => Some(trim_end(key_lines(distinct_keys(recs)))),
        None => None,
    }
}

/// The key and data of the records, as texts.
pub open spec fn record_views(v: Seq<Record>) -> Seq<(Seq<char>, Seq<char>)> {
    v.map_values(|r: Record| (r.key@, r.data@))
}

/// The storage text that a new record adds: its line and a line break.
pub open spec fn appended_record(key: Seq<char>, data: Seq<char>) -> Seq<char> {
    record_line(key, data) + seq!['\n']
}

/// The line of a record, ended by a line break.
pub fn record_text(key: &String, data: &String) -> (t: String)
    ensures
        t@ == appended_record(key@, data@),
{
    let mut v = chars_of(key.as_str());
    v.push(' ');
    v.push('|');
    v.push('|');
    v.push('|');
    v.push(' ');
    let d = chars_of(data.as_str());
    let mut i: usize = 0;
    let ghost start = v@;
    while i < d.len()
        invariant
            i <= d.len(),
            v@ == start + d@.subrange(0, i as int),
        decreases d.len() - i,
    {
        v.push(d[i]);
        i = i + 1;
        assert(v@ =~= start + d@.subrange(0, i as int));
    }
    v.push('\n');
    assert(d@.subrange(0, i as int) =~= d@);
    assert(v@ =~= appended_record(key@, data@));
    string_of(&v)
}

/// The records of a storage text (what `parse_storage` reads from the
/// storage file), or nothing where a line has no separator.
pub fn parse_storage(text: &str) -> (r: Option<Vec<Record>>)
    ensures
        r matches Some(v) ==> parse_storage_spec(text@) == Some(record_views(v@)),
        r is None ==> parse_storage_spec(text@) is None,
{
    let chars = chars_of(text);
    let nl = vec!['\n'];
    let pieces = split_chars(&chars, &nl);
    let ghost p = split(text@, seq!['\n']);
    assert(nl@ =~= seq!['\n']);
    proof {
        crate::text::lemma_split_scan_nonempty(text@, seq!['\n'], 0, 0);
    }
    let sep = vec![' ', '|', '|', '|', ' '];
    assert(sep@ =~= record_sep());
    let n = pieces.len();
    let mut out: Vec<Record> = Vec::new();
    let ghost ls = lines_of(text@);
    let mut i: usize = 0;
    while i < n
        invariant
            n == pieces.len(),
            n >= 1,
            char_views(pieces@) == p,
            p == split(text@, seq!['\n']),
            ls == lines_of(text@),
            sep@ == record_sep(),
            i <= n,
            i < n ==> parse_lines(ls.subrange(0, i as int)) == Some(record_views(out@)),
            i == n ==> parse_lines(ls) == Some(record_views(out@)),
        decreases n - i,
    {
        let piece = &pieces[i];
        let ghost pv = piece@;
        assert(pv == p[i as int]);
        if i + 1 == n && piece.len() == 0 {
            assert(ls =~= p.drop_last().map_values(|l: Seq<char>| strip_cr(l)));
            assert(ls.subrange(0, i as int) =~= ls);
            i = i + 1;
        } else {
            let line = if i + 1 < n && piece.len() > 0 && piece[piece.len() - 1] == '\r' {
                slice_chars(piece, 0, piece.len() - 1)
            } else {
                slice_chars(piece, 0, piece.len())
            };
            let ghost lv = line@;
            assert(i < ls.len());
            assert(ls[i as int] == lv) by {
                if i + 1 < n {
                    assert(ls[i as int] == strip_cr(p[i as int]));
                    if pv.len() > 0 && pv.last() == '\r' {
                        assert(lv =~= pv.drop_last());
                    } else {
                        assert(lv =~= pv);
                    }
                } else {
                    assert(lv =~= pv);
                }
            }
            let values = split_chars(&line, &sep);
            if values.len() < 2 {
                assert(parse_line(lv) is None);
                assert(ls.subrange(0, i + 1).drop_last() =~= ls.subrange(0, i as int));
                proof {
                    lemma_parse_lines_prefix_none(ls, i + 1);
                }
                return None;
            }
            let key = string_of(&values[0]);
            let data = string_of(&values[1]);
            let ghost before = record_views(out@);
            out.push(Record { key, data });
            assert(record_views(out@) =~= before.push((values@[0]@, values@[1]@)));
            assert(ls.subrange(0, i + 1).drop_last() =~= ls.subrange(0, i as int));
            i = i + 1;
            if i == n {
                assert(ls.subrange(0, i as int) =~= ls) by {
                    assert(ls.len() == n);
                }
            }
        }
    }
    Some(out)
}

/// Once a prefix of the lines fails to parse, so do all of them.
proof fn lemma_parse_lines_prefix_none(ls: Seq<Seq<char>>, k: int)
    requires
        0 <= k <= ls.len(),
        parse_lines(ls.subrange(0, k)) is None,
    ensures
        parse_lines(ls) is None,
    decreases ls.len() - k,
{
    if k < ls.len() {
        assert(ls.subrange(0, k + 1).drop_last() =~= ls.subrange(0, k));
        lemma_parse_lines_prefix_none(ls, k + 1);
    } else {
        assert(ls.subrange(0, k) =~= ls);
    }
}


/// The data of the last record with the given key (what the storage map
/// holds for it).
pub fn find_record(recs: &Vec<Record>, key: &Vec<char>) -> (r: Option<String>)
    ensures
        r matches Some(d) ==> lookup(record_views(recs@), key@) == Some(d@),
        r is None ==> lookup(record_views(recs@), key@) is None,
{
    let ghost all = record_views(recs@);
    let mut j: usize = recs.len();
    assert(all.subrange(0, j as int) =~= all);
    while j > 0
        invariant
            j <= recs.len(),
            all == record_views(recs@),
            lookup(all, key@) == lookup(all.subrange(0, j as int), key@),
        decreases j,
    {
        let k = chars_of(recs[j - 1].key.as_str());
        let ghost sub = all.subrange(0, j as int);
        assert(sub.last() == (recs@[j - 1].key@, recs@[j - 1].data@));
        assert(sub.drop_last() =~= all.subrange(0, j - 1));
        if same_chars(&k, key) {
            let d = recs[j - 1].data.clone();
            return Some(d);
        }
        j = j - 1;
    }
    None
}

/// Whether some record has the key.
pub fn key_used(recs: &Vec<Record>, key: &Vec<char>) -> (b: bool)
    ensures
        b == lookup(record_views(recs@), key@) is Some,
{
    find_record(recs, key).is_some()
}

/// Whether the key is among the given keys.
fn contains_key(ks: &Vec<Vec<char>>, k: &Vec<char>) -> (b: bool)
    ensures
        b == char_views(ks@).contains(k@),
{
    let mut i: usize = 0;
    while i < ks.len()
        invariant
            i <= ks.len(),
            forall|t: int| 0 <= t < i ==> char_views(ks@)[t] != k@,
        decreases ks.len() - i,
    {
        if same_chars(&ks[i], k) {
            assert(char_views(ks@)[i as int] == k@);
            return true;
        }
        i = i + 1;
    }
    false
}

/// The keys of the records, each on a line of its own, without the
/// white space at the end.
pub fn keys_listing(recs: &Vec<Record>) -> (t: Vec<char>)
    ensures
        t@ == trim_end(key_lines(distinct_keys(record_views(recs@)))),
{
    let ghost all = record_views(recs@);
    let mut keys: Vec<Vec<char>> = Vec::new();
    let mut i: usize = 0;
    while i < recs.len()
        invariant
            i <= recs.len(),
            all == record_views(recs@),
            char_views(keys@) == distinct_keys(all.subrange(0, i as int)),
        decreases recs.len() - i,
    {
        let k = chars_of(recs[i].key.as_str());
        let ghost sub = all.subrange(0, i + 1);
        assert(sub.drop_last() =~= all.subrange(0, i as int));
        assert(sub.last().0 == k@);
        if !contains_key(&keys, &k) {
            let ghost before = char_views(keys@);
            keys.push(k);
            assert(char_views(keys@) =~= before.push(sub.last().0));
        }
        i = i + 1;
    }
    assert(all.subrange(0, i as int) =~= all);
    let ghost ks = char_views(keys@);
    let mut out: Vec<char> = Vec::new();
    let mut j: usize = 0;
    while j < keys.len()
        invariant
            j <= keys.len(),
            ks == char_views(keys@),
            out@ == key_lines(ks.subrange(0, j as int)),
        decreases keys.len() - j,
    {
        let ghost before = out@;
        let k = &keys[j];
        let mut m: usize = 0;
        while m < k.len()
            invariant
                m <= k.len(),
                out@ == before + k@.subrange(0, m as int),
            decreases k.len() - m,
        {
            out.push(k[m]);
            m = m + 1;
            assert(out@ =~= before + k@.subrange(0, m as int));
        }
        out.push('\n');
        assert(k@.subrange(0, m as int) =~= k@);
        let ghost sub = ks.subrange(0, j + 1);
        assert(sub.drop_last() =~= ks.subrange(0, j as int));
        assert(sub.last() == k@);
        assert(out@ =~= key_lines(sub));
        j = j + 1;
    }
    assert(ks.subrange(0, j as int) =~= ks);
    trim_end_chars(&out)
}

/// The daemon's answer to a listing request for a storage text: the keys,
/// one per line; nothing where the storage does not parse.
pub fn handle_list(storage: &str) -> (r: Option<String>)
    ensures
        r matches Some(t) ==> list_spec(storage@) == Some(t@),
        r is None ==> list_spec(storage@) is None,
{
    match parse_storage(storage) {
        None => None,
        Some(recs) => {
            let t = keys_listing(&recs);
            Some(string_of(&t))
        },
    }
}

/// A key is listed exactly where some record has it.
pub proof fn lemma_listed_iff_used(recs: Seq<(Seq<char>, Seq<char>)>, key: Seq<char>)
    ensures
        distinct_keys(recs).contains(key) <==> lookup(recs, key) is Some,
    decreases recs.len(),
{
    if recs.len() > 0 {
        let prev = recs.drop_last();
        lemma_listed_iff_used(prev, key);
        lemma_listed_iff_used(prev, recs.last().0);
        let ks = distinct_keys(prev);
        if !ks.contains(recs.last().0) {
            let ks2 = ks.push(recs.last().0);
            if ks2.contains(key) {
                let i = choose|i: int| 0 <= i < ks2.len() && ks2[i] == key;
                if i < ks.len() {
                    assert(ks[i] == key);
                }
            }
            if ks.contains(key) {
                let i = choose|i: int| 0 <= i < ks.len() && ks[i] == key;
                assert(ks2[i] == key);
            }
            assert(ks2[ks.len() as int] == recs.last().0);
        }
    }
}

/// Listing the keys after a record with a new key was added ends with that
/// key.
pub proof fn lemma_list_after_append(recs: Seq<(Seq<char>, Seq<char>)>, key: Seq<char>, data: Seq<char>)
    requires
        lookup(recs, key) is None,
    ensures
        distinct_keys(recs.push((key, data))) == distinct_keys(recs).push(key),
{
    lemma_listed_iff_used(recs, key);
    assert(recs.push((key, data)).drop_last() =~= recs);
}

/// The record separator holds '|' first at index 1.
proof fn lemma_record_sep_bar()
    ensures
        first_index_of(record_sep(), '|', 1),
        !record_sep().contains('\n'),
        !record_sep().contains('\r'),
{
    assert(record_sep()[0] == ' ');
    if record_sep().contains('\n') {
        let i = choose|i: int| 0 <= i < 5 && record_sep()[i] == '\n';
    }
    if record_sep().contains('\r') {
        let i = choose|i: int| 0 <= i < 5 && record_sep()[i] == '\r';
    }
}

/// A record whose line reads back as that record: the separator begins
/// nowhere in the key and occurs nowhere in the data, neither holds a line
/// break, and the data does not end in a carriage return.
pub open spec fn record_storable(key: Seq<char>, data: Seq<char>) -> bool {
    &&& no_occurrence(key + record_sep().drop_last(), record_sep())
    &&& !key.contains('\n')
    &&& no_occurrence(data, record_sep())
    &&& !data.contains('\n')
    &&& (data.len() > 0 ==> data.last() != '\r')
}

/// A record's line reads back as that record.
pub proof fn lemma_parse_record_line(key: Seq<char>, data: Seq<char>)
    requires
        no_occurrence(key + record_sep().drop_last(), record_sep()),
        no_occurrence(data, record_sep()),
    ensures
        parse_line(record_line(key, data)) == Some((key, data)),
{
    lemma_split_cons_clear(key, record_sep(), data);
    lemma_split_whole(data, record_sep());
    assert(seq![key] + seq![data] =~= seq![key, data]);
}

/// Adding a record's line to well-formed storage adds that record at the
/// end of what the storage reads as, and leaves the storage well-formed.
pub proof fn lemma_storage_append(text: Seq<char>, key: Seq<char>, data: Seq<char>)
    requires
        storage_well_formed(text),
        record_storable(key, data),
    ensures
        parse_storage_spec(text + appended_record(key, data)) == Some(
            parse_storage_spec(text).unwrap().push((key, data)),
        ),
        storage_well_formed(text + appended_record(key, data)),
{
    let l = record_line(key, data);
    let y = appended_record(key, data);
    let nl = seq!['\n'];
    lemma_record_sep_bar();
    lemma_concat_contains(key, record_sep(), '\n');
    lemma_concat_contains(key + record_sep(), data, '\n');
    assert(first_index_of(nl, '\n', 0));
    lemma_split_cons(l, nl, seq![], '\n', 0);
    assert(y =~= l + nl + seq![]);
    let e = Seq::<char>::empty();
    assert(split(e, nl) == seq![e]) by {
        assert(e.subrange(0, 0) =~= e);
    }
    assert(split(y, nl) =~= seq![l, e]);
    assert(strip_cr(l) == l) by {
        if data.len() > 0 {
            assert(l.last() == data.last());
        } else {
            assert(l.last() == ' ');
        }
    }
    lemma_parse_record_line(key, data);
    if text.len() == 0 {
        assert(text + y =~= y);
        assert(lines_of(text) =~= seq![]);
        assert(lines_of(y) =~= seq![l]);
        assert(seq![l].drop_last() =~= Seq::<Seq<char>>::empty());
        assert(parse_lines(seq![l]) == Some(Seq::<(Seq<char>, Seq<char>)>::empty().push((key, data))));
    } else {
        lemma_split_after_char(text, y, '\n');
        let p = split(text, nl);
        assert(split(text + y, nl) =~= p.drop_last() + seq![l, e]);
        let ls = lines_of(text);
        assert(ls =~= p.drop_last().map_values(|q: Seq<char>| strip_cr(q)));
        let ls2 = lines_of(text + y);
        assert((p.drop_last() + seq![l, e]).drop_last() =~= p.drop_last().push(l));
        assert(ls2 =~= ls.push(l));
        assert(ls2.drop_last() =~= ls);
    }
    assert((text + y).last() == '\n');
}

// ---------------------------------------------------------------------------
// Rewriting the storage line by line
// ---------------------------------------------------------------------------

/// No two records have the same key.
pub open spec fn unique_keys(recs: Seq<(Seq<char>, Seq<char>)>) -> bool {
    forall|i: int, j: int| 0 <= i < j < recs.len() ==> #[trigger] recs[i].0 != #[trigger] recs[j].0
}

/// Whether a storage line is a record with the key.
pub open spec fn line_has_key(l: Seq<char>, key: Seq<char>) -> bool {
    match parse_line(l) {
        Some(r) => r.0 == key,
        None => false,
    }
}

/// The records with those of the key left out (where `new` is nothing) or
/// given the data `new`.
pub open spec fn rewrite_records(
    recs: Seq<(Seq<char>, Seq<char>)>,
    key: Seq<char>,
    new: Option<Seq<char>>,
) -> Seq<(Seq<char>, Seq<char>)>
    decreases recs.len(),
{
    if recs.len() == 0 {
        seq![]
    } else {
        let r = rewrite_records(recs.drop_last(), key, new);
        if recs.last().0 == key {
            match new {
                Some(d) => r.push((key, d)),
                None => r,
            }
        } else {
            r.push(recs.last())
        }
    }
}

/// The records without those that have the key.
pub open spec fn remove_key(recs: Seq<(Seq<char>, Seq<char>)>, key: Seq<char>) -> Seq<
    (Seq<char>, Seq<char>),
> {
    rewrite_records(recs, key, None)
}

/// The records with those of the key given new data.
pub open spec fn change_key(recs: Seq<(Seq<char>, Seq<char>)>, key: Seq<char>, data: Seq<char>) -> Seq<
    (Seq<char>, Seq<char>),
> {
    rewrite_records(recs, key, Some(data))
}

/// The lines with those that are records of the key left out (where
/// `repl` is nothing) or replaced by `repl`.
pub open spec fn rewrite_lines(ls: Seq<Seq<char>>, key: Seq<char>, repl: Option<Seq<char>>) -> Seq<
    Seq<char>,
>
    decreases ls.len(),
{
    if ls.len() == 0 {
        seq![]
    } else {
        let r = rewrite_lines(ls.drop_last(), key, repl);
        if line_has_key(ls.last(), key) {
            match repl {
                Some(l) => r.push(l),
                None => r,
            }
        } else {
            r.push(ls.last())
        }
    }
}

/// The same for pieces of text that a line break ends: each is judged by
/// its line, without the carriage return at its end.
pub open spec fn rewrite_pieces(ps: Seq<Seq<char>>, key: Seq<char>, repl: Option<Seq<char>>) -> Seq<
    Seq<char>,
>
    decreases ps.len(),
{
    if ps.len() == 0 {
        seq![]
    } else {
        let r = rewrite_pieces(ps.drop_last(), key, repl);
        if line_has_key(strip_cr(ps.last()), key) {
            match repl {
                Some(l) => r.push(l),
                None => r,
            }
        } else {
            r.push(ps.last())
        }
    }
}

/// Pieces of text, each followed by a line break.
pub open spec fn ended_text(ps: Seq<Seq<char>>) -> Seq<char>
    decreases ps.len(),
{
    if ps.len() == 0 {
        seq![]
    } else {
        ended_text(ps.drop_last()) + ps.last() + seq!['\n']
    }
}

/// The storage text with the lines of the key's records left out (where
/// `repl` is nothing) or replaced by `repl`; every other line keeps its
/// text and its line break, and a last line without a break keeps that.
pub open spec fn rewrite_text(text: Seq<char>, key: Seq<char>, repl: Option<Seq<char>>) -> Seq<
    char,
> {
    let p = split(text, seq!['\n']);
    let tail = if line_has_key(p.last(), key) {
        match repl {
            Some(l) => l,
            None => seq![],
        }
    } else {
        p.last()
    };
    ended_text(rewrite_pieces(p.drop_last(), key, repl)) + tail
}

/// Pieces without line breaks, each followed by one, and then a text,
/// split into those pieces and the pieces of that text.
proof fn lemma_split_ended(ps: Seq<Seq<char>>, u: Seq<char>)
    requires
        forall|i: int| 0 <= i < ps.len() ==> !(#[trigger] ps[i]).contains('\n'),
    ensures
        split(ended_text(ps) + u, seq!['\n']) == ps + split(u, seq!['\n']),
    decreases ps.len(),
{
    let nl = seq!['\n'];
    if ps.len() == 0 {
        assert(ended_text(ps) + u =~= u);
        assert(ps + split(u, nl) =~= split(u, nl));
    } else {
        let init = ps.drop_last();
        let last = ps.last();
        assert forall|i: int| 0 <= i < init.len() implies !(#[trigger] init[i]).contains('\n') by {
            assert(init[i] == ps[i]);
        }
        assert(!ps[ps.len() - 1].contains('\n'));
        let v = last + nl + u;
        assert(ended_text(ps) + u =~= ended_text(init) + v);
        lemma_split_ended(init, v);
        assert(first_index_of(nl, '\n', 0));
        lemma_split_cons(last, nl, u, '\n', 0);
        assert(init + (seq![last] + split(u, nl)) =~= ps + split(u, nl));
    }
}

/// The lines of a text hold no line break.
proof fn lemma_lines_clear(text: Seq<char>)
    ensures
        forall|i: int| 0 <= i < lines_of(text).len() ==> !(#[trigger] lines_of(text)[i]).contains('\n'),
{
    let p = split(text, seq!['\n']);
    lemma_split_clear(text, '\n');
    lemma_split_scan_nonempty(text, seq!['\n'], 0, 0);
    let ls = lines_of(text);
    let m = p.drop_last().map_values(|l: Seq<char>| strip_cr(l));
    assert forall|i: int| 0 <= i < ls.len() implies !(#[trigger] ls[i]).contains('\n') by {
        if i < m.len() {
            let q = p[i];
            assert(!q.contains('\n'));
            assert(ls[i] == strip_cr(q));
            if strip_cr(q).contains('\n') {
                let t = choose|t: int| 0 <= t < strip_cr(q).len() && strip_cr(q)[t] == '\n';
                assert(q[t] == '\n');
            }
        } else {
            assert(ls[i] == p.last());
            assert(!p[p.len() - 1].contains('\n'));
        }
    }
}

/// Rewriting pieces ended by line breaks, then taking their lines, is
/// rewriting their lines.
proof fn lemma_rewrite_pieces(ps: Seq<Seq<char>>, key: Seq<char>, repl: Option<Seq<char>>)
    requires
        forall|i: int| 0 <= i < ps.len() ==> !(#[trigger] ps[i]).contains('\n'),
        repl matches Some(l) ==> !l.contains('\n') && strip_cr(l) == l,
    ensures
        forall|i: int|
            0 <= i < rewrite_pieces(ps, key, repl).len() ==> !(#[trigger] rewrite_pieces(
                ps,
                key,
                repl,
            )[i]).contains('\n'),
        rewrite_pieces(ps, key, repl).map_values(|l: Seq<char>| strip_cr(l)) == rewrite_lines(
            ps.map_values(|l: Seq<char>| strip_cr(l)),
            key,
            repl,
        ),
    decreases ps.len(),
{
    if ps.len() == 0 {
        assert(ps.map_values(|l: Seq<char>| strip_cr(l)) =~= Seq::<Seq<char>>::empty());
        assert(rewrite_pieces(ps, key, repl).map_values(|l: Seq<char>| strip_cr(l))
            =~= Seq::<Seq<char>>::empty());
    } else {
        let init = ps.drop_last();
        assert forall|i: int| 0 <= i < init.len() implies !(#[trigger] init[i]).contains('\n') by {
            assert(init[i] == ps[i]);
        }
        assert(!ps[ps.len() - 1].contains('\n'));
        lemma_rewrite_pieces(init, key, repl);
        let r = rewrite_pieces(init, key, repl);
        let ms = ps.map_values(|l: Seq<char>| strip_cr(l));
        assert(ms.drop_last() =~= init.map_values(|l: Seq<char>| strip_cr(l)));
        assert(ms.last() == strip_cr(ps.last()));
        let x = if line_has_key(strip_cr(ps.last()), key) {
            repl
        } else {
            Some(ps.last())
        };
        match x {
            Some(l) => {
                let r2 = r.push(l);
                assert(r2.map_values(|l: Seq<char>| strip_cr(l)) =~= r.map_values(
                    |l: Seq<char>| strip_cr(l),
                ).push(strip_cr(l)));
                assert forall|i: int| 0 <= i < r2.len() implies !(#[trigger] r2[i]).contains(
                    '\n',
                ) by {
                    if i < r.len() {
                        assert(r2[i] == r[i]);
                    }
                }
            },
            None => {},
        }
    }
}

/// Rewriting lines that read as records rewrites the records.
proof fn lemma_rewrite_lines_parse(
    ls: Seq<Seq<char>>,
    recs: Seq<(Seq<char>, Seq<char>)>,
    key: Seq<char>,
    repl: Option<Seq<char>>,
    new: Option<Seq<char>>,
)
    requires
        parse_lines(ls) == Some(recs),
        repl is Some <==> new is Some,
        repl matches Some(l) ==> parse_line(l) == Some((key, new.unwrap())),
    ensures
        parse_lines(rewrite_lines(ls, key, repl)) == Some(rewrite_records(recs, key, new)),
    decreases ls.len(),
{
    if ls.len() == 0 {
        assert(recs =~= Seq::<(Seq<char>, Seq<char>)>::empty());
    } else {
        let init = ls.drop_last();
        let a = parse_lines(init).unwrap();
        let rl = parse_line(ls.last()).unwrap();
        assert(recs == a.push(rl));
        assert(recs.drop_last() =~= a);
        assert(recs.last() == rl);
        lemma_rewrite_lines_parse(init, a, key, repl, new);
        let r = rewrite_lines(init, key, repl);
        if line_has_key(ls.last(), key) {
            match repl {
                Some(l) => {
                    assert(r.push(l).drop_last() =~= r);
                },
                None => {},
            }
        } else {
            assert(r.push(ls.last()).drop_last() =~= r);
        }
    }
}

/// Rewriting the lines of a key's records in storage that parses gives
/// storage that parses as the rewritten records, and keeps a storage text
/// that ends its last line ending it.
pub proof fn lemma_rewrite_text(
    text: Seq<char>,
    key: Seq<char>,
    repl: Option<Seq<char>>,
    new: Option<Seq<char>>,
)
    requires
        parse_storage_spec(text) is Some,
        repl is Some <==> new is Some,
        repl matches Some(l) ==> {
            &&& parse_line(l) == Some((key, new.unwrap()))
            &&& !l.contains('\n')
            &&& l.len() > 0
            &&& l.last() != '\r'
        },
    ensures
        parse_storage_spec(rewrite_text(text, key, repl)) == Some(
            rewrite_records(parse_storage_spec(text).unwrap(), key, new),
        ),
        storage_well_formed(text) ==> storage_well_formed(rewrite_text(text, key, repl)),
{
    let nl = seq!['\n'];
    let p = split(text, nl);
    lemma_split_scan_nonempty(text, nl, 0, 0);
    lemma_split_clear(text, '\n');
    let a = p.drop_last();
    assert forall|i: int| 0 <= i < a.len() implies !(#[trigger] a[i]).contains('\n') by {
        assert(a[i] == p[i]);
    }
    let t = p.last();
    assert(!p[p.len() - 1].contains('\n'));
    lemma_rewrite_pieces(a, key, repl);
    let q = rewrite_pieces(a, key, repl);
    let tail = if line_has_key(t, key) {
        match repl {
            Some(l) => l,
            None => seq![],
        }
    } else {
        t
    };
    assert(!tail.contains('\n'));
    let new_text = rewrite_text(text, key, repl);
    assert(new_text == ended_text(q) + tail);
    lemma_split_ended(q, tail);
    assert(first_index_of(nl, '\n', 0));
    lemma_split_without(tail, nl, '\n', 0);
    let p2 = split(new_text, nl);
    assert(p2 =~= q.push(tail));
    assert(p2.drop_last() =~= q);
    let am = a.map_values(|l: Seq<char>| strip_cr(l));
    let qm = q.map_values(|l: Seq<char>| strip_cr(l));
    assert(qm == rewrite_lines(am, key, repl));
    let e = Seq::<char>::empty();
    assert(split(e, record_sep()) == seq![e]) by {
        assert(e.subrange(0, 0) =~= e);
    }
    assert(!line_has_key(e, key));
    let ls = lines_of(text);
    let ls2 = lines_of(new_text);
    if t.len() == 0 {
        assert(ls =~= am);
        assert(ls2 =~= qm);
    } else {
        assert(ls =~= am.push(t));
        assert(am.push(t).drop_last() =~= am);
        if line_has_key(t, key) {
            match repl {
                Some(l) => {
                    assert(ls2 =~= qm.push(l));
                },
                None => {
                    assert(ls2 =~= qm);
                },
            }
        } else {
            assert(ls2 =~= qm.push(t));
        }
    }
    assert(ls2 == rewrite_lines(ls, key, repl));
    lemma_rewrite_lines_parse(ls, parse_storage_spec(text).unwrap(), key, repl, new);
    if storage_well_formed(text) {
        if text.len() > 0 {
            lemma_split_after_char(text, e, '\n');
            assert(text + e =~= text);
        } else {
            assert(split(text, nl) == seq![e]) by {
                assert(text.subrange(0, 0) =~= e);
            }
        }
        assert(t.len() == 0);
        assert(new_text =~= ended_text(q));
        if q.len() > 0 {
            assert(ended_text(q).last() == '\n');
        }
    }
}

/// A key that some record of storage has holds no line break, and the
/// record separator begins nowhere inside it.
pub proof fn lemma_stored_key(text: Seq<char>, key: Seq<char>)
    requires
        parse_storage_spec(text) is Some,
        lookup(parse_storage_spec(text).unwrap(), key) is Some,
    ensures
        no_occurrence(key + record_sep().drop_last(), record_sep()),
        !key.contains('\n'),
{
    lemma_lines_clear(text);
    lemma_stored_key_lines(lines_of(text), parse_storage_spec(text).unwrap(), key);
}

proof fn lemma_stored_key_lines(
    ls: Seq<Seq<char>>,
    recs: Seq<(Seq<char>, Seq<char>)>,
    key: Seq<char>,
)
    requires
        parse_lines(ls) == Some(recs),
        lookup(recs, key) is Some,
        forall|i: int| 0 <= i < ls.len() ==> !(#[trigger] ls[i]).contains('\n'),
    ensures
        no_occurrence(key + record_sep().drop_last(), record_sep()),
        !key.contains('\n'),
    decreases ls.len(),
{
    let init = ls.drop_last();
    let a = parse_lines(init).unwrap();
    let l = ls.last();
    let rl = parse_line(l).unwrap();
    assert(recs == a.push(rl));
    assert(recs.drop_last() =~= a);
    if rl.0 == key {
        lemma_split_head_clear(l, record_sep());
        assert(!ls[ls.len() - 1].contains('\n'));
        if key.contains('\n') {
            let t = choose|t: int| 0 <= t < key.len() && key[t] == '\n';
            assert(l.subrange(0, key.len() as int)[t] == l[t]);
        }
    } else {
        assert forall|i: int| 0 <= i < init.len() implies !(#[trigger] init[i]).contains('\n') by {
            assert(init[i] == ls[i]);
        }
        lemma_stored_key_lines(init, a, key);
    }
}

/// What rewriting a key's records keeps: every other key finds what it
/// found before, the key finds the new data where it had a record and
/// nothing where its records were left out, and distinct keys stay
/// distinct.
pub proof fn lemma_rewrite_records_keeps(
    recs: Seq<(Seq<char>, Seq<char>)>,
    key: Seq<char>,
    new: Option<Seq<char>>,
)
    ensures
        forall|k: Seq<char>|
            k != key ==> #[trigger] lookup(rewrite_records(recs, key, new), k) == lookup(recs, k),
        new is None ==> lookup(rewrite_records(recs, key, new), key) is None,
        new matches Some(d) ==> lookup(rewrite_records(recs, key, new), key) == if lookup(
            recs,
            key,
        ) is Some {
            Some(d)
        } else {
            None::<Seq<char>>
        },
        unique_keys(recs) ==> unique_keys(rewrite_records(recs, key, new)),
        forall|i: int|
            0 <= i < rewrite_records(recs, key, new).len() ==> exists|j: int|
                0 <= j < recs.len() && #[trigger] rewrite_records(recs, key, new)[i].0 == recs[j].0
                    && (new is None ==> j >= i),
    decreases recs.len(),
{
    if recs.len() > 0 {
        let prev = recs.drop_last();
        lemma_rewrite_records_keeps(prev, key, new);
        let r = rewrite_records(prev, key, new);
        let last = recs.last();
        let x = if last.0 == key {
            match new {
                Some(d) => Some((key, d)),
                None => None,
            }
        } else {
            Some(last)
        };
        assert forall|i: int| 0 <= i < r.len() implies exists|j: int|
            0 <= j < recs.len() && #[trigger] r[i].0 == recs[j].0 && (new is None ==> j >= i) by {
            let j = choose|j: int|
                0 <= j < prev.len() && #[trigger] r[i].0 == prev[j].0 && (new is None ==> j >= i);
            assert(recs[j] == prev[j]);
        }
        match x {
            Some(y) => {
                let r2 = r.push(y);
                assert(r2.drop_last() =~= r);
                assert(y.0 == last.0);
                assert(r2.last() == y);
                assert forall|k: Seq<char>| k != key implies #[trigger] lookup(r2, k) == lookup(
                    recs,
                    k,
                ) by {
                    assert(lookup(r, k) == lookup(prev, k));
                }
                assert forall|i: int| 0 <= i < r2.len() implies exists|j: int|
                    0 <= j < recs.len() && #[trigger] r2[i].0 == recs[j].0 && (new is None ==> j
                        >= i) by {
                    if i < r.len() {
                        assert(r2[i] == r[i]);
                    } else {
                        assert(r2[i].0 == recs[recs.len() - 1].0);
                    }
                }
                if unique_keys(recs) {
                    assert forall|i: int, j: int| 0 <= i < j < prev.len() implies #[trigger] prev[i].0
                        != #[trigger] prev[j].0 by {
                        assert(prev[i] == recs[i] && prev[j] == recs[j]);
                    }
                    assert forall|i: int, j: int| 0 <= i < j < r2.len() implies #[trigger] r2[i].0
                        != #[trigger] r2[j].0 by {
                        if j < r.len() {
                            assert(r2[i] == r[i] && r2[j] == r[j]);
                        } else {
                            assert(r2[i] == r[i]);
                            let t = choose|t: int|
                                0 <= t < prev.len() && #[trigger] r[i].0 == prev[t].0 && (new is None
                                    ==> t >= i);
                            assert(recs[t] == prev[t]);
                            assert(recs[t].0 != recs[recs.len() - 1].0);
                        }
                    }
                }
            },
            None => {
                assert forall|k: Seq<char>| k != key implies #[trigger] lookup(r, k) == lookup(
                    recs,
                    k,
                ) by {
                    assert(lookup(r, k) == lookup(prev, k));
                }
                if unique_keys(recs) {
                    assert forall|i: int, j: int| 0 <= i < j < prev.len() implies #[trigger] prev[i].0
                        != #[trigger] prev[j].0 by {
                        assert(prev[i] == recs[i] && prev[j] == recs[j]);
                    }
                }
            },
        }
    }
}

/// Appends the characters of `s`.
fn push_all(out: &mut Vec<char>, s: &Vec<char>)
    ensures
        final(out)@ == old(out)@ + s@,
{
    let ghost start = out@;
    let mut i: usize = 0;
    while i < s.len()
        invariant
            i <= s.len(),
            out@ == start + s@.subrange(0, i as int),
        decreases s.len() - i,
    {
        out.push(s[i]);
        i = i + 1;
        assert(out@ =~= start + s@.subrange(0, i as int));
    }
    assert(s@.subrange(0, i as int) =~= s@);
    assert(out@ =~= start + s@);
}

/// Whether a storage line is a record with the key.
fn line_of_key(l: &Vec<char>, key: &Vec<char>) -> (b: bool)
    ensures
        b == line_has_key(l@, key@),
{
    let sep = vec![' ', '|', '|', '|', ' '];
    assert(sep@ =~= record_sep());
    let v = split_chars(l, &sep);
    if v.len() < 2 {
        return false;
    }
    assert(char_views(v@)[0] == v@[0]@);
    same_chars(&v[0], key)
}

/// A piece of text without the carriage return at its end.
fn without_cr(p: &Vec<char>) -> (l: Vec<char>)
    ensures
        l@ == strip_cr(p@),
{
    if p.len() > 0 && p[p.len() - 1] == '\r' {
        let l = slice_chars(p, 0, p.len() - 1);
        assert(l@ =~= p@.drop_last());
        l
    } else {
        let l = slice_chars(p, 0, p.len());
        assert(l@ =~= p@);
        l
    }
}

/// An optional text as plain characters.
pub open spec fn opt_chars(o: Option<&Vec<char>>) -> Option<Seq<char>> {
    match o {
        Some(v) => Some(v@),
        None => None,
    }
}

/// The storage text with the lines of the key's records left out, or
/// replaced by `repl`; every other line is kept as it was.
pub fn rewrite_storage(text: &str, key: &Vec<char>, repl: Option<&Vec<char>>) -> (t: String)
    ensures
        t@ == rewrite_text(text@, key@, opt_chars(repl)),
{
    let ghost rv = opt_chars(repl);
    let chars = chars_of(text);
    let nl = vec!['\n'];
    assert(nl@ =~= seq!['\n']);
    let pieces = split_chars(&chars, &nl);
    let ghost p = split(text@, seq!['\n']);
    proof {
        crate::text::lemma_split_scan_nonempty(text@, seq!['\n'], 0, 0);
    }
    let n = pieces.len();
    let ghost a = p.drop_last();
    let mut out: Vec<char> = Vec::new();
    let mut i: usize = 0;
    while i + 1 < n
        invariant
            n == pieces.len(),
            n >= 1,
            char_views(pieces@) == p,
            a == p.drop_last(),
            i + 1 <= n,
            rv == opt_chars(repl),
            out@ == ended_text(rewrite_pieces(a.subrange(0, i as int), key@, rv)),
        decreases n - i,
    {
        let piece = &pieces[i];
        assert(piece@ == a[i as int]);
        let line = without_cr(piece);
        let ghost sub = a.subrange(0, i + 1);
        assert(sub.drop_last() =~= a.subrange(0, i as int));
        assert(sub.last() == piece@);
        let ghost r = rewrite_pieces(a.subrange(0, i as int), key@, rv);
        if line_of_key(&line, key) {
            match repl {
                Some(l) => {
                    push_all(&mut out, l);
                    out.push('\n');
                    assert(r.push(l@).drop_last() =~= r);
                    assert(out@ =~= ended_text(r.push(l@)));
                },
                None => {},
            }
        } else {
            push_all(&mut out, piece);
            out.push('\n');
            assert(r.push(piece@).drop_last() =~= r);
            assert(out@ =~= ended_text(r.push(piece@)));
        }
        i = i + 1;
    }
    assert(a.subrange(0, i as int) =~= a);
    let last = &pieces[n - 1];
    assert(last@ == p.last());
    if line_of_key(last, key) {
        match repl {
            Some(l) => {
                push_all(&mut out, l);
            },
            None => {
                assert(out@ =~= out@ + Seq::<char>::empty());
            },
        }
    } else {
        push_all(&mut out, last);
    }
    string_of(&out)
}

/// Adding a record line to storage whose last line is not ended joins the
/// two lines: the records keep their keys, in the same order.
pub proof fn lemma_storage_append_unended(text: Seq<char>, l: Seq<char>)
    requires
        parse_storage_spec(text) is Some,
        text.len() > 0,
        text.last() != '\n',
        !l.contains('\n'),
        l.len() > 0,
        l.last() != '\r',
    ensures
        parse_storage_spec(text + l + seq!['\n']) matches Some(nr) && nr.len()
            == parse_storage_spec(text).unwrap().len() && forall|i: int|
            0 <= i < nr.len() ==> #[trigger] nr[i].0 == parse_storage_spec(text).unwrap()[i].0,
{
    let nl = seq!['\n'];
    let e = Seq::<char>::empty();
    let recs = parse_storage_spec(text).unwrap();
    let (x, t) = lemma_last_piece(text, '\n');
    assert(t.len() > 0) by {
        if t.len() == 0 {
            assert(text =~= x);
        }
    }
    assert(first_index_of(nl, '\n', 0));
    lemma_split_without(t, nl, '\n', 0);
    lemma_concat_contains(t, l, '\n');
    let tl = t + l;
    lemma_split_cons(tl, nl, e, '\n', 0);
    assert(split(e, nl) == seq![e]) by {
        assert(e.subrange(0, 0) =~= e);
    }
    assert(tl + nl + e =~= tl + nl);
    let y = tl + nl;
    assert(split(y, nl) =~= seq![tl, e]);
    let big = text + l + nl;
    assert(big =~= x + y);
    let pp: Seq<Seq<char>> = if x.len() == 0 {
        seq![]
    } else {
        split(x, nl).drop_last()
    };
    if x.len() == 0 {
        assert(text =~= t);
        assert(big =~= y);
    } else {
        lemma_split_after_char(x, t, '\n');
        lemma_split_after_char(x, y, '\n');
    }
    assert(split(text, nl) =~= pp.push(t));
    assert(split(big, nl) =~= pp + seq![tl, e]);
    let pm = pp.map_values(|q: Seq<char>| strip_cr(q));
    assert(pp.push(t).drop_last() =~= pp);
    let ls = lines_of(text);
    assert(ls =~= pm.push(t));
    assert((pp + seq![tl, e]).drop_last() =~= pp.push(tl));
    assert(strip_cr(tl) == tl) by {
        assert(tl.last() == l.last());
    }
    let ls2 = lines_of(big);
    assert(ls2 =~= pm.push(tl));
    assert(ls.drop_last() =~= pm);
    assert(ls2.drop_last() =~= pm);
    let a = parse_lines(pm).unwrap();
    assert(recs == a.push(parse_line(t).unwrap()));
    assert(split(t, record_sep()).len() >= 2);
    lemma_split_head_extend(t, record_sep(), l);
    let nr = parse_storage_spec(big).unwrap();
    assert(nr == a.push(parse_line(tl).unwrap()));
    assert forall|i: int| 0 <= i < nr.len() implies #[trigger] nr[i].0 == recs[i].0 by {
        if i < a.len() {
            assert(nr[i] == a[i] && recs[i] == a[i]);
        }
    }
}


/// Each key followed by a line break is the keys as pieces ended by line
/// breaks.
proof fn lemma_key_lines_ended(ks: Seq<Seq<char>>)
    ensures
        key_lines(ks) == ended_text(ks),
    decreases ks.len(),
{
    if ks.len() > 0 {
        lemma_key_lines_ended(ks.drop_last());
    }
}

/// The keys listed are distinct.
proof fn lemma_distinct_keys_distinct(recs: Seq<(Seq<char>, Seq<char>)>)
    ensures
        forall|i: int, j: int|
            0 <= i < j < distinct_keys(recs).len() ==> #[trigger] distinct_keys(recs)[i]
                != #[trigger] distinct_keys(recs)[j],
    decreases recs.len(),
{
    if recs.len() > 0 {
        let prev = recs.drop_last();
        lemma_distinct_keys_distinct(prev);
        let ks = distinct_keys(prev);
        if !ks.contains(recs.last().0) {
            let ks2 = ks.push(recs.last().0);
            assert forall|i: int, j: int| 0 <= i < j < ks2.len() implies #[trigger] ks2[i]
                != #[trigger] ks2[j] by {
                if j < ks.len() {
                    assert(ks2[i] == ks[i] && ks2[j] == ks[j]);
                } else {
                    assert(ks2[i] == ks[i]);
                    if ks[i] == recs.last().0 {
                        assert(ks.contains(recs.last().0));
                    }
                }
            }
        }
    }
}

/// The listing of a storage that parses: cut at its line breaks, the
/// listed text is exactly the distinct keys of the records, one per line,
/// every key that some record has and no other, each once; the reply is
/// that text without the white space at its end.
pub proof fn law_listing_lists_every_key(text: Seq<char>)
    requires
        parse_storage_spec(text) is Some,
    ensures
        list_spec(text) == Some(
            trim_end(key_lines(distinct_keys(parse_storage_spec(text).unwrap()))),
        ),
        split(key_lines(distinct_keys(parse_storage_spec(text).unwrap())), seq!['\n'])
            == distinct_keys(parse_storage_spec(text).unwrap()).push(Seq::<char>::empty()),
        forall|k: Seq<char>|
            #[trigger] distinct_keys(parse_storage_spec(text).unwrap()).contains(k) <==> lookup(
                parse_storage_spec(text).unwrap(),
                k,
            ) is Some,
        forall|i: int, j: int|
            0 <= i < j < distinct_keys(parse_storage_spec(text).unwrap()).len() ==> #[trigger] distinct_keys(
                parse_storage_spec(text).unwrap(),
            )[i] != #[trigger] distinct_keys(parse_storage_spec(text).unwrap())[j],
{
    let recs = parse_storage_spec(text).unwrap();
    let ks = distinct_keys(recs);
    assert forall|k: Seq<char>| #[trigger] ks.contains(k) <==> lookup(recs, k) is Some by {
        lemma_listed_iff_used(recs, k);
    }
    assert forall|i: int| 0 <= i < ks.len() implies !(#[trigger] ks[i]).contains('\n') by {
        assert(ks.contains(ks[i]));
        lemma_listed_iff_used(recs, ks[i]);
        lemma_stored_key(text, ks[i]);
    }
    lemma_key_lines_ended(ks);
    let e = Seq::<char>::empty();
    lemma_split_ended(ks, e);
    assert(ended_text(ks) + e =~= ended_text(ks));
    assert(split(e, seq!['\n']) == seq![e]) by {
        assert(e.subrange(0, 0) =~= e);
    }
    assert(ks + seq![e] =~= ks.push(e));
    lemma_distinct_keys_distinct(recs);
}


/// A key finds data exactly where some record has that very key, and what
/// it finds is the data of the last such record.
pub proof fn law_lookup_exact(recs: Seq<(Seq<char>, Seq<char>)>, key: Seq<char>)
    ensures
        lookup(recs, key) is None <==> forall|i: int| 0 <= i < recs.len() ==> (#[trigger] recs[i]).0
            != key,
        lookup(recs, key) matches Some(d) ==> exists|i: int|
            0 <= i < recs.len() && #[trigger] recs[i] == (key, d) && forall|j: int|
                i < j < recs.len() ==> (#[trigger] recs[j]).0 != key,
    decreases recs.len(),
{
    if recs.len() > 0 {
        let prev = recs.drop_last();
        law_lookup_exact(prev, key);
        let n = recs.len() - 1;
        assert(recs[n] == recs.last());
        if recs.last().0 == key {
            assert(recs[n] == (key, recs.last().1));
        } else {
            assert forall|i: int| 0 <= i < prev.len() implies #[trigger] prev[i] == recs[i] by {}
            if lookup(prev, key) is None {
                assert forall|i: int| 0 <= i < recs.len() implies (#[trigger] recs[i]).0 != key by {
                    if i < n {
                        assert(prev[i] == recs[i]);
                    }
                }
            } else {
                let d = lookup(prev, key).unwrap();
                let i = choose|i: int|
                    0 <= i < prev.len() && #[trigger] prev[i] == (key, d) && forall|j: int|
                        i < j < prev.len() ==> (#[trigger] prev[j]).0 != key;
                assert(recs[i] == (key, d));
                assert forall|j: int| i < j < recs.len() implies (#[trigger] recs[j]).0 != key by {
                    if j < n {
                        assert(prev[j] == recs[j]);
                    }
                }
                assert(prev[i].0 == key);
            }
        }
    }
}

} // verus!
