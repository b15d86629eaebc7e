use vstd::prelude::*;
use vstd::utf8::{decode_utf8, encode_utf8, is_scalar, valid_utf8};
use vstd::string::*;
use crate::text::{char_views, chars_of, first_index_of, join, lemma_split_join, split, split_chars, string_of};
use crypto::digest::Digest;

verus! {

// ---------------------------------------------------------------------------
// Decimal numbers
// ---------------------------------------------------------------------------

/// The character of a decimal digit.
pub open spec fn digit_char(d: nat) -> char {
    ((d + 48) as u32) as char
}

/// `c` is one of '0' to '9'.
pub open spec fn is_digit(c: char) -> bool {
    48 <= (c as u32) <= 57
}

/// The number that a sequence of decimal digits writes.
pub open spec fn digits_value(s: Seq<char>) -> nat
    decreases s.len(),
{
    if s.len() == 0 {
        0
    } else {
        digits_value(s.drop_last()) * 10 + ((s.last() as u32) - 48) as nat
    }
}

/// A byte written in decimal without leading zeros, as `u8::to_string` does.
pub open spec fn decimal(n: u8) -> Seq<char> {
    if n < 10 {
        seq![digit_char(n as nat)]
    } else if n < 100 {
        seq![digit_char((n / 10) as nat), digit_char((n % 10) as nat)]
    } else {
        seq![
            digit_char((n / 100) as nat),
            digit_char(((n / 10) % 10) as nat),
            digit_char((n % 10) as nat),
        ]
    }
}

/// The digits of a number text: the text without a leading '+' that
/// stands before something.
pub open spec fn unsigned_part(s: Seq<char>) -> Seq<char> {
    if s.len() >= 2 && s[0] == '+' {
        s.drop_first()
    } else {
        s
    }
}

/// Every character of `d` is a decimal digit.
pub open spec fn all_digits(d: Seq<char>) -> bool {
    forall|i: int| 0 <= i < d.len() ==> is_digit(#[trigger] d[i])
}

/// What `str::parse::<u8>` makes of a text: an optional '+', then at least
/// one decimal digit, of value at most 255.
pub open spec fn parse_u8(s: Seq<char>) -> Option<u8> {
    let d = unsigned_part(s);
    if d.len() > 0 && all_digits(d) && digits_value(d) <= 255 {
        Some(digits_value(d) as u8)
    } else {
        None
    }
}

/// Each text parsed as a byte, or nothing if any fails.
pub open spec fn parse_all(p: Seq<Seq<char>>) -> Option<Seq<u8>>
    decreases p.len(),
{
    if p.len() == 0 {
        Some(seq![])
    } else {
        match (parse_all(p.drop_last()), parse_u8(p.last())) {
            (Some(a), Some(b)) => Some(a.push(b)),
            _ => None,
        }
    }
}

/// The separator between the numbers of an encrypted record.
pub open spec fn piece_sep() -> Seq<char> {
    seq!['#', '@', '#']
}

/// The decimal renderings of the bytes.
pub open spec fn decimals(c: Seq<u8>) -> Seq<Seq<char>> {
    c.map_values(|b: u8| decimal(b))
}

/// Bytes written as decimal numbers separated by "#@#".
pub open spec fn render_bytes(c: Seq<u8>) -> Seq<char> {
    join(decimals(c), piece_sep())
}

/// The bytes that a "#@#"-separated list of decimal numbers writes.
pub open spec fn parse_bytes(s: Seq<char>) -> Option<Seq<u8>> {
    parse_all(split(s, piece_sep()))
}

/// The separator "#@#" begins with '#'.
pub proof fn lemma_piece_sep_hash()
    ensures
        first_index_of(piece_sep(), '#', 0),
{
}

proof fn lemma_digit(d: nat)
    requires
        d < 10,
    ensures
        is_digit(digit_char(d)),
        (digit_char(d) as u32) - 48 == d,
        digit_char(d) != '#',
{
    let u = (d + 48) as u32;
    assert(u == d + 48);
    vstd::utf8::char_u32_cast(u as char, u);
    assert(((u as char) as u32) == u) by {
        assert(is_scalar(u));
    }
}

/// A byte in decimal reads back as the same byte, and holds no '#'.
pub proof fn lemma_decimal_parses(n: u8)
    ensures
        parse_u8(decimal(n)) == Some(n),
        !decimal(n).contains('#'),
        decimal(n).len() > 0,
{
    let s = decimal(n);
    if n < 10 {
        lemma_digit(n as nat);
        assert(s.drop_last() =~= seq![]);
        assert(digits_value(s.drop_last()) == 0);
        assert(digits_value(s) == n);
    } else if n < 100 {
        let a = (n / 10) as nat;
        let b = (n % 10) as nat;
        lemma_digit(a);
        lemma_digit(b);
        let s1 = s.drop_last();
        assert(s1 =~= seq![digit_char(a)]);
        assert(s1.drop_last() =~= seq![]);
        assert(digits_value(s1.drop_last()) == 0);
        assert(digits_value(s1) == a);
        assert(digits_value(s) == a * 10 + b);
        assert(a * 10 + b == n);
    } else {
        let a = (n / 100) as nat;
        let b = ((n / 10) % 10) as nat;
        let c = (n % 10) as nat;
        lemma_digit(a);
        lemma_digit(b);
        lemma_digit(c);
        let s1 = s.drop_last();
        let s2 = s1.drop_last();
        assert(s1 =~= seq![digit_char(a), digit_char(b)]);
        assert(s2 =~= seq![digit_char(a)]);
        assert(s2.drop_last() =~= seq![]);
        assert(digits_value(s2.drop_last()) == 0);
        assert(digits_value(s2) == a);
        assert(digits_value(s1) == a * 10 + b);
        assert(digits_value(s) == (a * 10 + b) * 10 + c);
        assert((a * 10 + b) * 10 + c == n);
    }
    assert(s[0] != '+');
    assert(unsigned_part(s) == s);
    assert(all_digits(s));
}

/// A byte in decimal holds only digits.
pub proof fn lemma_decimal_digits(n: u8)
    ensures
        !decimal(n).contains('|'),
        !decimal(n).contains('\n'),
        !decimal(n).contains('\r'),
{
    lemma_decimal_parses(n);
    let s = decimal(n);
    if s.contains('|') || s.contains('\n') || s.contains('\r') {
        let i = choose|i: int| 0 <= i < s.len() && (s[i] == '|' || s[i] == '\n' || s[i] == '\r');
        assert(all_digits(s));
        assert(is_digit(s[i]));
    }
}

/// Bytes written by `render_bytes` read back by `parse_bytes` when there is
/// at least one.
pub proof fn lemma_render_parse(c: Seq<u8>)
    requires
        c.len() > 0,
    ensures
        parse_bytes(render_bytes(c)) == Some(c),
{
    let p = decimals(c);
    assert forall|i: int| 0 <= i < p.len() implies !(#[trigger] p[i]).contains('#') by {
        lemma_decimal_parses(c[i]);
    }
    lemma_split_join(p, piece_sep(), '#', 0);
    lemma_parse_all_decimals(c);
}

proof fn lemma_parse_all_decimals(c: Seq<u8>)
    ensures
        parse_all(decimals(c)) == Some(c),
    decreases c.len(),
{
    if c.len() > 0 {
        lemma_parse_all_decimals(c.drop_last());
        assert(decimals(c).drop_last() =~= decimals(c.drop_last()));
        lemma_decimal_parses(c.last());
        assert(c.drop_last().push(c.last()) =~= c);
    } else {
        assert(decimals(c) =~= seq![]);
    }
}

/// The character of decimal digit `d`.
fn digit(d: u8) -> (c: char)
    requires
        d < 10,
    ensures
        c == digit_char(d as nat),
{
    ((d + 48) as char)
}

/// `n` written in decimal (`u8::to_string`).
pub fn decimal_chars(n: u8) -> (s: Vec<char>)
    ensures
        s@ == decimal(n),
{
    let mut s: Vec<char> = Vec::new();
    if n >= 100 {
        s.push(digit(n / 100));
    }
    if n >= 10 {
        s.push(digit((n / 10) % 10));
    }
    s.push(digit(n % 10));
    if n < 10 {
        assert(s@ =~= decimal(n));
    } else if n < 100 {
        assert((n / 10) % 10 == n / 10);
        assert(s@ =~= decimal(n));
    } else {
        assert(s@ =~= decimal(n));
    }
    s
}

/// What `str::parse::<u8>` gives for a text.
pub fn parse_byte(s: &Vec<char>) -> (r: Option<u8>)
    ensures
        r == parse_u8(s@),
{
    let start: usize = if s.len() >= 2 && s[0] == '+' {
        1
    } else {
        0
    };
    let ghost d = s@.subrange(start as int, s.len() as int);
    assert(d =~= unsigned_part(s@));
    if start == s.len() {
        return None;
    }
    let mut value: u32 = 0;
    let mut i: usize = start;
    while i < s.len()
        invariant
            start <= i <= s.len(),
            d == s@.subrange(start as int, s.len() as int),
            d == unsigned_part(s@),
            forall|t: int| start <= t < i ==> is_digit(#[trigger] s@[t]),
            value as nat == (if digits_value(s@.subrange(start as int, i as int)) <= 255 {
                digits_value(s@.subrange(start as int, i as int))
            } else {
                256
            }),
        decreases s.len() - i,
    {
        let c = s[i];
        let u = c as u32;
        if u < 48 || u > 57 {
            assert(d[i - start] == c);
            assert(!is_digit(d[i - start]));
            return None;
        }
        let ghost prev = s@.subrange(start as int, i as int);
        let ghost next = s@.subrange(start as int, i + 1);
        assert(next.drop_last() =~= prev);
        assert(next.last() == c);
        value = value * 10 + (u - 48);
        if value > 255 {
            value = 256;
        }
        i = i + 1;
    }
    assert(s@.subrange(start as int, i as int) =~= d);
    assert forall|t: int| 0 <= t < d.len() implies is_digit(#[trigger] d[t]) by {
        assert(d[t] == s@[t + start]);
    }
    assert(all_digits(d));
    if value > 255 {
        None
    } else {
        Some(value as u8)
    }
}

/// The numbers of a "#@#"-separated list of bytes written in decimal, or
/// nothing where a piece is not such a number.
pub fn cut_into_pieces(data: &str) -> (r: Option<Vec<u8>>)
    ensures
        r matches Some(v) ==> parse_bytes(data@) == Some(v@),
        r is None ==> parse_bytes(data@) is None,
{
    let chars = chars_of(data);
    let sep = vec!['#', '@', '#'];
    assert(sep@ =~= piece_sep());
    let pieces = split_chars(&chars, &sep);
    let ghost p = split(data@, piece_sep());
    let mut out: Vec<u8> = Vec::new();
    let mut i: usize = 0;
    while i < pieces.len()
        invariant
            i <= pieces.len(),
            char_views(pieces@) == p,
            p == split(data@, piece_sep()),
            parse_all(p.subrange(0, i as int)) == Some(out@),
        decreases pieces.len() - i,
    {
        let b = parse_byte(&pieces[i]);
        assert(p.subrange(0, i + 1).drop_last() =~= p.subrange(0, i as int));
        assert(p.subrange(0, i + 1).last() == pieces@[i as int]@);
        match b {
            Some(b) => {
                out.push(b);
            },
            None => {
                assert(parse_all(p.subrange(0, i + 1)) is None);
                proof {
                    lemma_parse_all_prefix_none(p, i as int + 1);
                }
                return None;
            },
        }
        i = i + 1;
    }
    assert(p.subrange(0, i as int) =~= p);
    Some(out)
}

/// Once a prefix fails to parse, so does the whole list.
proof fn lemma_parse_all_prefix_none(p: Seq<Seq<char>>, k: int)
    requires
        0 <= k <= p.len(),
        parse_all(p.subrange(0, k)) is None,
    ensures
        parse_all(p) is None,
    decreases p.len() - k,
{
    if k < p.len() {
        assert(p.subrange(0, k + 1).drop_last() =~= p.subrange(0, k));
        lemma_parse_all_prefix_none(p, k + 1);
    } else {
        assert(p.subrange(0, k) =~= p);
    }
}

/// Pieces joined by a separator, with one more piece added at the end.
pub proof fn lemma_join_push(p: Seq<Seq<char>>, x: Seq<char>, sep: Seq<char>)
    requires
        p.len() > 0,
    ensures
        join(p.push(x), sep) == join(p, sep) + sep + x,
    decreases p.len(),
{
    let q = p.push(x);
    assert(q[0] == p[0]);
    if p.len() == 1 {
        assert(q.drop_first() =~= seq![x]);
        assert(join(seq![x], sep) == x);
        assert(join(p, sep) == p[0]);
        assert(join(q, sep) == p[0] + sep + x);
    } else {
        lemma_join_push(p.drop_first(), x, sep);
        assert(q.drop_first() =~= p.drop_first().push(x));
        assert(join(q, sep) == p[0] + sep + join(p.drop_first().push(x), sep));
        assert(join(q, sep) =~= join(p, sep) + sep + x);
    }
}

/// The bytes written in decimal, separated by "#@#".
pub fn render_ciphertext(c: &Vec<u8>) -> (t: Vec<char>)
    ensures
        t@ == render_bytes(c@),
{
    let mut out: Vec<char> = Vec::new();
    let mut i: usize = 0;
    while i < c.len()
        invariant
            i <= c.len(),
            out@ == join(decimals(c@.subrange(0, i as int)), piece_sep()),
        decreases c.len() - i,
    {
        let ghost before = decimals(c@.subrange(0, i as int));
        let d = decimal_chars(c[i]);
        assert(decimals(c@.subrange(0, i + 1)) =~= before.push(decimal(c@[i as int])));
        if i > 0 {
            out.push('#');
            out.push('@');
            out.push('#');
            let mut j: usize = 0;
            let ghost mid = out@;
            while j < d.len()
                invariant
                    j <= d.len(),
                    out@ == mid + d@.subrange(0, j as int),
                decreases d.len() - j,
            {
                out.push(d[j]);
                j = j + 1;
                assert(out@ =~= mid + d@.subrange(0, j as int));
            }
            assert(d@.subrange(0, j as int) =~= d@);
            proof {
                lemma_join_push(before, decimal(c@[i as int]), piece_sep());
            }
            assert(out@ =~= join(before, piece_sep()) + piece_sep() + decimal(c@[i as int]));
        } else {
            let mut j: usize = 0;
            while j < d.len()
                invariant
                    j <= d.len(),
                    out@ == d@.subrange(0, j as int),
                decreases d.len() - j,
            {
                out.push(d[j]);
                j = j + 1;
                assert(out@ =~= d@.subrange(0, j as int));
            }
            assert(d@.subrange(0, j as int) =~= d@);
            assert(before.push(decimal(c@[i as int])) =~= seq![decimal(c@[i as int])]);
        }
        i = i + 1;
    }
    assert(c@.subrange(0, i as int) =~= c@);
    out
}


// ---------------------------------------------------------------------------
// Record encryption
// ---------------------------------------------------------------------------

/// The result of `openssl::symm::encrypt` with AES-128 in CBC mode and
/// padding, for a key, an initialization vector and the plain bytes: the
/// ciphertext, or nothing where the call fails.
pub uninterp spec fn aes128_cbc_encrypt(key: Seq<u8>, iv: Seq<u8>, data: Seq<u8>) -> Option<
    Seq<u8>,
>;

/// The result of `openssl::symm::decrypt` with AES-128 in CBC mode and
/// padding, for a key, an initialization vector and the encrypted bytes:
/// the plain bytes, or nothing where the call fails.
pub uninterp spec fn aes128_cbc_decrypt(key: Seq<u8>, iv: Seq<u8>, data: Seq<u8>) -> Option<
    Seq<u8>,
>;

/// The largest input that OpenSSL's cipher update takes: its length is
/// converted to a C `int`, and a longer one panics.
pub open spec fn cipher_input_limit() -> int {
    i32::MAX as int
}

/// Calls `openssl::symm::encrypt(Cipher::aes_128_cbc(), key, Some(iv), data)`.
/// Believed of it: it succeeds exactly where `aes128_cbc_encrypt` names a
/// ciphertext and then returns it; a ciphertext is the data padded to whole
/// 16-byte blocks (at least one byte of padding), and decrypting it with the
/// same key and vector gives back `data`.
#[verifier::external_body]
fn aes_encrypt(key: &[u8], iv: &[u8], data: &[u8]) -> (res: Option<Vec<u8>>)
    requires
        key@.len() == 16,
        iv@.len() == 16,
        data@.len() <= cipher_input_limit(),
    ensures
        res is Some <==> aes128_cbc_encrypt(key@, iv@, data@) is Some,
        res matches Some(c) ==> aes128_cbc_encrypt(key@, iv@, data@) == Some(c@),
        res matches Some(c) ==> c@.len() == 16 * (data@.len() / 16 + 1),
        res matches Some(c) ==> aes128_cbc_decrypt(key@, iv@, c@) == Some(data@),
{
    match openssl::symm::encrypt(openssl::symm::Cipher::aes_128_cbc(), key, Some(iv), data) {
        Ok(c) => Some(c),
        Err(_) => None,
    }
}

/// Calls `openssl::symm::decrypt(Cipher::aes_128_cbc(), key, Some(iv), data)`.
/// Believed of it: it succeeds exactly where `aes128_cbc_decrypt` names a
/// result, and then returns that result.
#[verifier::external_body]
fn aes_decrypt(key: &[u8], iv: &[u8], data: &[u8]) -> (res: Option<Vec<u8>>)
    requires
        key@.len() == 16,
        iv@.len() == 16,
        data@.len() <= cipher_input_limit(),
    ensures
        res is Some <==> aes128_cbc_decrypt(key@, iv@, data@) is Some,
        res matches Some(p) ==> aes128_cbc_decrypt(key@, iv@, data@) == Some(p@),
{
    match openssl::symm::decrypt(openssl::symm::Cipher::aes_128_cbc(), key, Some(iv), data) {
        Ok(p) => Some(p),
        Err(_) => None,
    }
}

/// Calls `std::str::from_utf8`: it accepts exactly the valid UTF-8 byte
/// sequences, and gives the characters that they encode.
#[verifier::external_body]
pub(crate) fn text_from_utf8(bytes: &[u8]) -> (res: Option<String>)
    ensures
        res is Some <==> valid_utf8(bytes@),
        res matches Some(s) ==> s@ == decode_utf8(bytes@),
{
    match std::str::from_utf8(bytes) {
        Ok(s) => Some(s.to_string()),
        Err(_) => None,
    }
}

/// The initialization vector that records are encrypted with.
pub open spec fn record_iv() -> Seq<u8> {
    seq![0u8, 1u8, 2u8, 3u8, 4u8, 5u8, 6u8, 7u8, 0u8, 1u8, 2u8, 3u8, 4u8, 5u8, 6u8, 7u8]
}

/// The 16 key bytes made from a password's bytes by repeating them.
pub open spec fn key16(k: Seq<u8>) -> Seq<u8> {
    Seq::new(16, |i: int| k[i % (k.len() as int)])
}

/// The record text that encrypting `data` under the master password `key`
/// gives: the ciphertext bytes in decimal, separated by "#@#"; nothing
/// where the password is empty, the text is too long for OpenSSL (where it
/// panics) or encryption fails.
pub open spec fn encode_spec(data: Seq<char>, key: Seq<char>) -> Option<Seq<char>> {
    let kb = encode_utf8(key);
    let db = encode_utf8(data);
    if kb.len() == 0 || db.len() > cipher_input_limit() {
        None
    } else {
        match aes128_cbc_encrypt(key16(kb), record_iv(), db) {
            Some(c) => Some(render_bytes(c)),
            None => None,
        }
    }
}

/// The text that a record decrypts to under the master password `key`, or
/// nothing where the password is empty, the record is not a list of bytes,
/// the list is too long for OpenSSL (where it panics), decryption fails or
/// its result is not UTF-8.
pub open spec fn decode_spec(data: Seq<char>, key: Seq<char>) -> Option<Seq<char>> {
    let kb = encode_utf8(key);
    if kb.len() == 0 {
        None
    } else {
        match parse_bytes(data) {
            None => None,
            Some(c) => if c.len() > cipher_input_limit() {
                None
            } else {
                match aes128_cbc_decrypt(key16(kb), record_iv(), c) {
                    None => None,
                    Some(p) => if valid_utf8(p) {
                        Some(decode_utf8(p))
                    } else {
                        None
                    },
                }
            },
        }
    }
}

/// The 16 key bytes begin with the password's bytes and repeat them: each
/// byte equals the one a password's length before it.
pub proof fn law_key16_repeats(k: Seq<u8>)
    requires
        k.len() > 0,
    ensures
        key16(k).len() == 16,
        forall|i: int| 0 <= i < 16 && i < k.len() ==> #[trigger] key16(k)[i] == k[i],
        forall|i: int| 0 <= i && i + k.len() < 16 ==> #[trigger] key16(k)[i + k.len()] == key16(k)[i],
{
    let n = k.len() as int;
    assert forall|i: int| 0 <= i < 16 && i < n implies #[trigger] key16(k)[i] == k[i] by {
        vstd::arithmetic::div_mod::lemma_small_mod(i as nat, n as nat);
    }
    assert forall|i: int| 0 <= i && i + n < 16 implies #[trigger] key16(k)[i + n] == key16(k)[i] by {
        vstd::arithmetic::div_mod::lemma_mod_add_multiples_vanish(i, n);
        assert(n + i == i + n);
    }
}

/// A password written twice gives the same 16 key bytes as the password.
pub proof fn law_key16_doubled(k: Seq<u8>)
    requires
        k.len() > 0,
    ensures
        key16(k + k) == key16(k),
{
    let n = k.len() as int;
    let kk = k + k;
    assert forall|i: int| 0 <= i < 16 implies #[trigger] key16(kk)[i] == key16(k)[i] by {
        vstd::arithmetic::div_mod::lemma_mod_mod(i, n, 2);
        assert(n * 2 == kk.len());
        let r = i % (n * 2);
        assert(0 <= r < 2 * n) by {
            vstd::arithmetic::div_mod::lemma_mod_bound(i, n * 2);
        }
        assert(key16(kk)[i] == kk[r]);
        assert(key16(k)[i] == k[i % n]);
        assert(r % n == i % n);
        if r < n {
            assert(kk[r] == k[r]);
            vstd::arithmetic::div_mod::lemma_small_mod(r as nat, n as nat);
        } else {
            assert(kk[r] == k[r - n]);
            vstd::arithmetic::div_mod::lemma_mod_sub_multiples_vanish(r, n);
            vstd::arithmetic::div_mod::lemma_small_mod((r - n) as nat, n as nat);
            assert(-n + r == r - n);
        }
    }
    assert(key16(kk) =~= key16(k));
}

/// The UTF-8 bytes of two texts one after the other are the bytes of each.
proof fn lemma_encode_utf8_concat(a: Seq<char>, b: Seq<char>)
    ensures
        encode_utf8(a + b) == encode_utf8(a) + encode_utf8(b),
    decreases a.len(),
{
    if a.len() == 0 {
        assert(a + b =~= b);
        assert(encode_utf8(a) + encode_utf8(b) =~= encode_utf8(b));
    } else {
        assert((a + b).drop_first() =~= a.drop_first() + b);
        assert((a + b)[0] == a[0]);
        lemma_encode_utf8_concat(a.drop_first(), b);
        assert(encode_utf8(a + b) =~= encode_utf8(a) + encode_utf8(b));
    }
}

/// Encrypting or decrypting under a master password written twice is the
/// same as under the password: only its 16 repeated key bytes count.
pub proof fn law_password_doubled(data: Seq<char>, record: Seq<char>, key: Seq<char>)
    ensures
        encode_spec(data, key + key) == encode_spec(data, key),
        decode_spec(record, key + key) == decode_spec(record, key),
{
    lemma_encode_utf8_concat(key, key);
    let kb = encode_utf8(key);
    if kb.len() > 0 {
        law_key16_doubled(kb);
    }
}

/// The initialization vector that records are encrypted with.
fn iv_bytes() -> (iv: Vec<u8>)
    ensures
        iv@ == record_iv(),
{
    let iv = vec![0u8, 1u8, 2u8, 3u8, 4u8, 5u8, 6u8, 7u8, 0u8, 1u8, 2u8, 3u8, 4u8, 5u8, 6u8, 7u8];
    assert(iv@ =~= record_iv());
    iv
}

/// Sixteen key bytes made by repeating the password's bytes.
pub fn make_sure_len_16(key_bytes: &[u8]) -> (result: Vec<u8>)
    requires
        key_bytes@.len() > 0,
    ensures
        result@ == key16(key_bytes@),
{
    let mut result: Vec<u8> = Vec::new();
    let mut i: usize = 0;
    while i < 16
        invariant
            key_bytes@.len() > 0,
            i <= 16,
            result@ == key16(key_bytes@).subrange(0, i as int),
        decreases 16 - i,
    {
        result.push(key_bytes[i % key_bytes.len()]);
        i = i + 1;
        assert(result@ =~= key16(key_bytes@).subrange(0, i as int));
    }
    assert(result@ =~= key16(key_bytes@));
    result
}

/// The record text for `data` encrypted under the master password `key`;
/// nothing where the password is empty, the text is too long for OpenSSL or
/// encryption fails. A record that comes out lists one byte for each
/// ciphertext byte, 16 for each whole block of the text and 16 of padding,
/// and decrypts back to `data` where its ciphertext is short enough for
/// OpenSSL to take it back.
pub fn encode(data: &String, key: &str) -> (r: Option<String>)
    ensures
        r matches Some(t) ==> encode_spec(data@, key@) == Some(t@),
        r is None ==> encode_spec(data@, key@) is None,
        r matches Some(t) ==> (parse_bytes(t@) matches Some(c) && c.len() == 16 * (encode_utf8(
            data@,
        ).len() / 16 + 1)),
        r matches Some(t) ==> encode_utf8(data@).len() + 16 <= cipher_input_limit() ==> decode_spec(
            t@,
            key@,
        ) == Some(data@),
{
    let key_bytes = key.as_bytes();
    if key_bytes.len() == 0 {
        return None;
    }
    let plain = data.as_str().as_bytes();
    if plain.len() > 0x7fff_ffff {
        return None;
    }
    let key_array = make_sure_len_16(key_bytes);
    let iv = iv_bytes();
    match aes_encrypt(key_array.as_slice(), iv.as_slice(), plain) {
        None => None,
        Some(ciphertext) => {
            let text = render_ciphertext(&ciphertext);
            let result = string_of(&text);
            proof {
                let n = plain@.len() as int;
                vstd::arithmetic::div_mod::lemma_fundamental_div_mod(n, 16);
                assert(ciphertext@.len() <= n + 16);
                lemma_render_parse(ciphertext@);
                vstd::utf8::encode_utf8_decode_utf8(data@);
                vstd::utf8::encode_utf8_valid_utf8(data@);
            }
            Some(result)
        },
    }
}

/// The text that a record decrypts to under the master password `key`, or
/// nothing where that fails.
pub fn decode(data: &String, key: &str) -> (r: Option<String>)
    ensures
        r matches Some(t) ==> decode_spec(data@, key@) == Some(t@),
        r is None ==> decode_spec(data@, key@) is None,
{
    let key_bytes = key.as_bytes();
    if key_bytes.len() == 0 {
        return None;
    }
    let data_array = match cut_into_pieces(data.as_str()) {
        None => {
            return None;
        },
        Some(d) => d,
    };
    if data_array.len() > 0x7fff_ffff {
        return None;
    }
    let key_array = make_sure_len_16(key_bytes);
    let iv = iv_bytes();
    match aes_decrypt(key_array.as_slice(), iv.as_slice(), data_array.as_slice()) {
        None => None,
        Some(plain) => text_from_utf8(plain.as_slice()),
    }
}

// ---------------------------------------------------------------------------
// Master password hashing
// ---------------------------------------------------------------------------

/// The lowercase hexadecimal SHA-256 digest that the `rust-crypto` crate
/// computes of a text's UTF-8 bytes.
pub uninterp spec fn sha256_hex(text: Seq<char>) -> Seq<char>;

/// A lowercase hexadecimal digit.
pub open spec fn is_lower_hex(c: char) -> bool {
    ||| 48 <= (c as u32) <= 57
    ||| 97 <= (c as u32) <= 102
}

/// Calls `crypto::sha2::Sha256` through `input_str` and `result_str`.
/// Believed of it: the digest is the one `sha256_hex` names, and it is 64
/// lowercase hexadecimal digits (32 bytes written by `to_hex`).
#[verifier::external_body]
pub(crate) fn hash_password(pass: &str) -> (h: String)
    ensures
        h@ == sha256_hex(pass@),
        h@.len() == 64,
        forall|i: int| 0 <= i < h@.len() ==> is_lower_hex(#[trigger] h@[i]),
{
    let mut hasher = crypto::sha2::Sha256::new();
    hasher.input_str(pass);
    hasher.result_str()
}

} // verus!
