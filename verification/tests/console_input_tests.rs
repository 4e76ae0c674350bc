use wmx::console_input::{record, ConsoleInput};

fn feed_all(input: &mut ConsoleInput, bytes: &[u8]) -> Vec<u8> {
    input.feed(bytes)
}

#[test]
fn ascii_text_passes_through() {
    let mut input = ConsoleInput::new();
    assert_eq!(feed_all(&mut input, b"dir\r"), b"dir\r".to_vec());
    assert_eq!(input.finish(), Vec::<u8>::new());
}

#[test]
fn lone_escape_waits_then_becomes_a_key_record() {
    let mut input = ConsoleInput::new();
    assert_eq!(input.feed(b"\x1b"), Vec::<u8>::new());
    assert_eq!(input.idle(), b"\x1b[27;0;27;1;0;1_".to_vec());
    assert_eq!(input.idle(), Vec::<u8>::new());
}

#[test]
fn idle_keeps_a_partial_sequence() {
    let mut input = ConsoleInput::new();
    assert_eq!(input.feed(b"\x1b[1"), Vec::<u8>::new());
    assert_eq!(input.idle(), Vec::<u8>::new());
    assert_eq!(input.finish(), b"\x1b[1".to_vec());
}

#[test]
fn non_ascii_text_becomes_unicode_records() {
    let mut input = ConsoleInput::new();
    assert_eq!(input.feed("é".as_bytes()), b"\x1b[0;0;233;1;0;1_".to_vec());
    let emoji = "😀".as_bytes();
    assert_eq!(input.feed(&emoji[..2]), Vec::<u8>::new());
    assert_eq!(
        input.feed(&emoji[2..]),
        b"\x1b[0;0;55357;1;0;1_\x1b[0;0;56832;1;0;1_".to_vec()
    );
}

#[test]
fn invalid_utf8_is_forwarded_as_is() {
    let mut input = ConsoleInput::new();
    assert_eq!(input.feed(&[0xc3, 0x28]), vec![0xc3, 0x28]);
}

#[test]
fn csi_u_key_becomes_a_key_record() {
    let mut input = ConsoleInput::new();
    assert_eq!(input.feed(b"\x1b[97u"), b"\x1b[0;0;97;1;0;1_".to_vec());
}

#[test]
fn csi_u_uses_the_keyboard_layout() {
    let mut layout = vec![-1i16; 128];
    layout[97] = 0x141;
    let mut input = ConsoleInput::with_layout(layout);
    assert_eq!(input.feed(b"\x1b[97u"), b"\x1b[65;0;97;1;0;1_".to_vec());
    assert_eq!(input.feed(b"\x1b[98u"), b"\x1b[0;0;98;1;0;1_".to_vec());
}

#[test]
fn csi_u_control_letter_and_release() {
    let mut input = ConsoleInput::new();
    assert_eq!(input.feed(b"\x1b[99;5u"), b"\x1b[0;0;3;1;8;1_".to_vec());
    assert_eq!(input.feed(b"\x1b[97;1:3u"), b"\x1b[0;0;97;0;0;1_".to_vec());
}

#[test]
fn csi_u_shift_uses_the_shifted_key() {
    let mut input = ConsoleInput::new();
    assert_eq!(input.feed(b"\x1b[97:65;2u"), b"\x1b[0;0;65;1;16;1_".to_vec());
    assert_eq!(input.feed(b"\x1b[97;2u"), b"\x1b[0;0;65;1;16;1_".to_vec());
}

#[test]
fn csi_u_special_keys() {
    let mut input = ConsoleInput::new();
    assert_eq!(input.feed(b"\x1b[13u"), b"\x1b[13;0;13;1;0;1_".to_vec());
    assert_eq!(input.feed(b"\x1b[127u"), b"\x1b[8;0;8;1;0;1_".to_vec());
}

#[test]
fn csi_u_private_use_and_bad_modifiers_pass_through() {
    let mut input = ConsoleInput::new();
    assert_eq!(input.feed(b"\x1b[57344u"), b"\x1b[57344u".to_vec());
    assert_eq!(input.feed(b"\x1b[97;9u"), b"\x1b[97;9u".to_vec());
    assert_eq!(input.feed(b"\x1b[97;1:4u"), b"\x1b[97;1:4u".to_vec());
}

#[test]
fn pasted_text_is_not_translated() {
    let mut input = ConsoleInput::new();
    let pasted = b"\x1b[200~\x1b[97u\x1b[201~";
    assert_eq!(input.feed(pasted), pasted.to_vec());
    assert_eq!(input.feed(b"\x1b[97u"), b"\x1b[0;0;97;1;0;1_".to_vec());
}

#[test]
fn other_sequences_pass_through() {
    let mut input = ConsoleInput::new();
    assert_eq!(input.feed(b"\x1b[A\x1bOP\x1bx"), b"\x1b[A\x1bOP\x1bx".to_vec());
    assert_eq!(input.feed(b"\x1b]0;t\x07"), b"\x1b]0;t\x07".to_vec());
    assert_eq!(input.feed(b"\x1bPq\x1b\\"), b"\x1bPq\x1b\\".to_vec());
}

#[test]
fn split_feed_matches_whole_feed() {
    let mut whole = ConsoleInput::new();
    let all = whole.feed(b"ab\x1b[97;5ucd");
    let mut split = ConsoleInput::new();
    let mut parts = split.feed(b"ab\x1b[9");
    parts.extend(split.feed(b"7;5ucd"));
    assert_eq!(parts, all);
    assert_eq!(split.finish(), whole.finish());
}

#[test]
fn unterminated_control_string_is_released_past_the_limit() {
    let mut input = ConsoleInput::new();
    let mut bytes = b"\x1b]".to_vec();
    bytes.extend(std::iter::repeat(b'x').take(64 * 1024));
    assert_eq!(input.feed(&bytes), bytes);
    assert_eq!(input.finish(), Vec::<u8>::new());
}

#[test]
fn key_record_format() {
    let mut out = b"x".to_vec();
    record(&mut out, 65, 97, 16, false);
    assert_eq!(out, b"x\x1b[65;0;97;0;16;1_".to_vec());
}

#[test]
fn control_strings_split_anywhere_match_whole_feed() {
    let all: &[u8] = b"a\x1b]0;t\xc3\xa9\x07b\x1bPq\x1b\\c\x1b[97uz";
    let mut whole = ConsoleInput::new();
    let expected = whole.feed(all);
    for k in 0..=all.len() {
        let mut split = ConsoleInput::new();
        let mut out = split.feed(&all[..k]);
        out.extend(split.feed(&all[k..]));
        assert_eq!(out, expected, "split at {k}");
    }
}

#[test]
fn bel_after_closed_string_over_plain_bytes_matches_whole_feed() {
    let all: &[u8] = b"\x1b]0;t\x1b\\ok\x07\x1b[97uz";
    let mut whole = ConsoleInput::new();
    let expected = whole.feed(all);
    for k in 0..=all.len() {
        let mut split = ConsoleInput::new();
        let mut out = split.feed(&all[..k]);
        out.extend(split.feed(&all[k..]));
        assert_eq!(out, expected, "split at {k}");
        assert_eq!(split.finish(), Vec::<u8>::new());
    }
}
