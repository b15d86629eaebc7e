use rpm::cipher::{cut_into_pieces, decimal_chars, decode, encode, make_sure_len_16, parse_byte};
use rpm::daemon::{handle_init, FileWrite};
use rpm::storage::{find_record, handle_list, key_used, parse_storage, record_text};
use rpm::text::{chars_of, split_chars, string_of, trim_chars, trim_end_chars};

const DOC_KEY: &str = "\u{0}\u{1}\u{2}\u{3}\u{4}\u{5}\u{6}\u{7}\u{8}\u{9}\u{a}\u{b}\u{c}\u{d}\u{e}\u{f}";
const DOC_CIPHERTEXT: &str = "180#@#185#@#231#@#48#@#214#@#214#@#247#@#222#@#119#@#63#@#28#@#255#@#179#@#62#@#68#@#90#@#145#@#215#@#39#@#98#@#135#@#77#@#251#@#60#@#94#@#196#@#89#@#114#@#74#@#244#@#124#@#161";

fn chars(s: &str) -> Vec<char> {
    s.chars().collect()
}

#[test]
fn split_like_str_split() {
    let cases = ["a#@#b", "", "#@#", "a#@##@#b", "#@#@#x", "abc"];
    for c in cases.iter() {
        let got: Vec<String> =
            split_chars(&chars(c), &chars("#@#")).iter().map(|p| p.iter().collect()).collect();
        let want: Vec<String> = c.split("#@#").map(|s| s.to_string()).collect();
        assert_eq!(got, want, "splitting {:?}", c);
    }
}

#[test]
fn trims_like_str_trim() {
    let cases = ["  abc \n", "\u{3000}x\u{a0}", "", " \t\r\n", "a b"];
    for c in cases.iter() {
        let t: String = trim_chars(&chars(c)).iter().collect();
        assert_eq!(t, c.trim());
        let e: String = trim_end_chars(&chars(c)).iter().collect();
        assert_eq!(e, c.trim_end());
    }
}

#[test]
fn chars_and_strings() {
    assert_eq!(chars_of("ähm"), vec!['ä', 'h', 'm']);
    assert_eq!(string_of(&vec!['x', 'ÿ']), "xÿ");
}

#[test]
fn decimals_like_to_string() {
    for n in 0..=255u8 {
        let s: String = decimal_chars(n).iter().collect();
        assert_eq!(s, n.to_string());
        assert_eq!(parse_byte(&chars(&s)), Some(n));
    }
}

#[test]
fn parse_byte_like_str_parse() {
    let cases = ["+5", "007", "256", "", "+", "-1", "1a", "255", "+0", "++1", " 1"];
    for c in cases.iter() {
        assert_eq!(parse_byte(&chars(c)), c.parse::<u8>().ok(), "parsing {:?}", c);
    }
}

#[test]
fn cut_into_pieces_reads_numbers() {
    assert_eq!(cut_into_pieces("1#@#2#@#255"), Some(vec![1, 2, 255]));
    assert_eq!(cut_into_pieces("7"), Some(vec![7]));
    assert_eq!(cut_into_pieces(""), None);
    assert_eq!(cut_into_pieces("1#@#256"), None);
    assert_eq!(cut_into_pieces("1#@#"), None);
}

#[test]
fn key_bytes_repeat_to_sixteen() {
    assert_eq!(make_sure_len_16(b"abc"), b"abcabcabcabcabca".to_vec());
    assert_eq!(make_sure_len_16(b"0123456789abcdefXYZ"), b"0123456789abcdef".to_vec());
}

#[test]
fn encode_matches_openssl_example() {
    let t = encode(&"Some Crypto Text".to_string(), DOC_KEY).unwrap();
    assert_eq!(t, DOC_CIPHERTEXT);
    assert_eq!(decode(&t, DOC_KEY), Some("Some Crypto Text".to_string()));
}

#[test]
fn encode_decode_round_trip() {
    let t = encode(&"login#@#pässwörd".to_string(), "master").unwrap();
    assert_eq!(decode(&t, "master"), Some("login#@#pässwörd".to_string()));
    assert_ne!(decode(&t, "other"), Some("login#@#pässwörd".to_string()));
}

#[test]
fn encode_pads_to_whole_blocks() {
    let short = encode(&"abc".to_string(), "master").unwrap();
    assert_eq!(cut_into_pieces(&short).unwrap().len(), 16);
    let block = encode(&"0123456789abcdef".to_string(), "master").unwrap();
    assert_eq!(cut_into_pieces(&block).unwrap().len(), 32);
    let empty = encode(&String::new(), "master").unwrap();
    assert_eq!(cut_into_pieces(&empty).unwrap().len(), 16);
}

#[test]
fn encode_depends_on_the_sixteen_key_bytes_alone() {
    let a = encode(&"secret".to_string(), "ab").unwrap();
    let b = encode(&"secret".to_string(), "abababababababab").unwrap();
    assert_eq!(a, b);
    assert_eq!(a, encode(&"secret".to_string(), "ab").unwrap());
}

#[test]
fn encode_with_empty_password_fails() {
    assert_eq!(encode(&"x".to_string(), ""), None);
    assert_eq!(decode(&DOC_CIPHERTEXT.to_string(), ""), None);
}

#[test]
fn decode_of_garbage_fails() {
    assert_eq!(decode(&"not numbers".to_string(), "master"), None);
    assert_eq!(decode(&"1#@#2#@#3".to_string(), "master"), None);
}

#[test]
fn init_writes_sha256_of_password() {
    match handle_init("abc", "").write {
        Some(FileWrite::Reset(h)) => assert_eq!(
            h,
            "ba7816bf8f01cfea414140de5dae2223b00361a396177a9cb410ff61f20015ad\n"
        ),
        _ => panic!("expected a hash line"),
    }
}

#[test]
fn storage_lines() {
    let recs = parse_storage("a ||| 1\nb ||| 2\r\na ||| 3\n").unwrap();
    assert_eq!(recs.len(), 3);
    assert_eq!(recs[1].key, "b");
    assert_eq!(recs[1].data, "2");
    assert_eq!(find_record(&recs, &chars("a")), Some("3".to_string()));
    assert_eq!(find_record(&recs, &chars("c")), None);
    assert!(key_used(&recs, &chars("b")));
    assert!(!key_used(&recs, &chars("c")));
    assert_eq!(parse_storage("").unwrap().len(), 0);
    let last = parse_storage("k ||| d ||| e").unwrap();
    assert_eq!(last[0].data, "d");
    assert!(parse_storage("a ||| 1\nbroken\n").is_none());
    assert!(parse_storage("a ||| 1\n\nb ||| 2\n").is_none());
}

#[test]
fn record_line_format() {
    assert_eq!(record_text(&"mail".to_string(), &"1#@#2".to_string()), "mail ||| 1#@#2\n");
}

#[test]
fn listing_keys() {
    assert_eq!(handle_list("a ||| 1\nb ||| 2\na ||| 3\n"), Some("a\nb".to_string()));
    assert_eq!(handle_list(""), Some(String::new()));
    assert_eq!(handle_list("bad\n"), None);
}
