use table_top::codec::{parse_text, render_text, DecodeError};
use table_top::common::Bin;

#[test]
fn render_and_parse_round_trip() {
    let bytes = vec![0u8, 7, 42, 255, 100];
    let text = render_text(&bytes);
    assert_eq!(String::from_utf8(text.clone()).unwrap(), "000 007 042 255 100 ");
    assert_eq!(parse_text(&text).unwrap(), bytes);
}

#[test]
fn empty_payload_renders_to_empty_text() {
    let text = render_text(&Vec::new());
    assert!(text.is_empty());
    assert_eq!(parse_text(&text).unwrap(), Vec::<u8>::new());
}

#[test]
fn parse_rejects_non_canonical_text() {
    assert_eq!(parse_text(&b"00".to_vec()), Err(DecodeError::Malformed));
    assert_eq!(parse_text(&b"0000".to_vec()), Err(DecodeError::Malformed));
    assert_eq!(parse_text(&b"00a ".to_vec()), Err(DecodeError::Malformed));
    assert_eq!(parse_text(&b"256 ".to_vec()), Err(DecodeError::Malformed));
    assert_eq!(parse_text(&b"999 ".to_vec()), Err(DecodeError::Malformed));
}

#[test]
fn bin_wraps_and_unwraps_a_payload() {
    let b = Bin::new(vec![1u8, 2, 3]);
    assert_eq!(b.0, vec![1u8, 2, 3]);
    assert_eq!(b.into_inner(), vec![1u8, 2, 3]);
}
