use rosetree::classify::{classify_sample, is_utf8, SAMPLE_LEN};

#[test]
fn empty_content_is_text() {
    assert!(classify_sample(&Vec::new()));
}

#[test]
fn plain_ascii_is_text() {
    assert!(classify_sample(&b"hello world\n".to_vec()));
}

#[test]
fn multibyte_utf8_is_text() {
    let v = String::from("caf\u{e9} \u{4e16}\u{754c} \u{1f600}").into_bytes();
    assert!(classify_sample(&v));
}

#[test]
fn lone_continuation_byte_is_not_text() {
    assert!(!classify_sample(&vec![0x80]));
}

#[test]
fn invalid_byte_in_sample_is_not_text() {
    let mut v = b"good text".to_vec();
    v.push(0xff);
    assert!(!classify_sample(&v));
}

#[test]
fn truncated_multibyte_sequence_is_not_text() {
    // The first byte announces a three-byte character; only one follows.
    assert!(!classify_sample(&vec![0xe4, 0xb8]));
}

#[test]
fn overlong_encoding_is_not_text() {
    // 0xC0 0xAF is an overlong encoding of '/'.
    assert!(!classify_sample(&vec![0xc0, 0xaf]));
}

#[test]
fn surrogate_encoding_is_not_text() {
    // 0xED 0xA0 0x80 encodes the surrogate U+D800.
    assert!(!classify_sample(&vec![0xed, 0xa0, 0x80]));
}

#[test]
fn invalid_bytes_past_the_sample_are_ignored() {
    // Valid UTF-8 for the whole sample, garbage at byte SAMPLE_LEN:
    // still classified text, by design of the bounded sample.
    let mut v = vec![b'a'; SAMPLE_LEN];
    v.push(0xff);
    assert!(classify_sample(&v));
    assert!(!is_utf8(&v));
}

#[test]
fn multibyte_character_cut_by_the_sample_boundary_is_not_text() {
    // 1023 ASCII bytes, then the first byte of a two-byte character:
    // the sampled prefix ends inside the character and is invalid.
    let mut v = vec![b'a'; SAMPLE_LEN - 1];
    v.push(0xc3);
    v.push(0xa9);
    assert!(!classify_sample(&v));
    assert!(is_utf8(&v));
}

#[test]
fn whole_string_utf8_check() {
    assert!(is_utf8(&b"abc".to_vec()));
    assert!(!is_utf8(&vec![b'a', 0xfe]));
}
