use wmx::callbacks::{csi_reply, osc_reply, window_title, with_title};
use wmx::codec::{encoded_command, to_lower_hex, utf16le_bytes};
use wmx::history::{capture, HistoryWindow, HISTORY_LIMIT, OUTPUT_LIMIT};

#[test]
fn cursor_position_and_device_queries() {
    assert_eq!(csi_reply(None, false, 6, 'n', 4, 9), b"\x1b[5;10R".to_vec());
    assert_eq!(csi_reply(None, false, 5, 'n', 0, 0), b"\x1b[0n".to_vec());
    assert_eq!(csi_reply(None, false, 0, 'c', 0, 0), b"\x1b[?62;22c".to_vec());
    assert_eq!(csi_reply(Some(b'>'), false, 0, 'c', 0, 0), b"\x1b[>0;1;0c".to_vec());
    assert_eq!(csi_reply(None, true, 6, 'n', 0, 0), Vec::<u8>::new());
    assert_eq!(csi_reply(Some(b'?'), false, 6, 'n', 0, 0), Vec::<u8>::new());
    assert_eq!(csi_reply(None, false, 1, 'c', 0, 0), Vec::<u8>::new());
    assert_eq!(csi_reply(None, false, 6, 'n', 65535, 65535), b"\x1b[65536;65536R".to_vec());
}

#[test]
fn colour_queries() {
    let q = |a: &[u8], b: &[u8]| osc_reply(&vec![a.to_vec(), b.to_vec()]);
    assert_eq!(q(b"10", b"?"), b"\x1b]10;rgb:eeee/eeee/eeee\x1b\\".to_vec());
    assert_eq!(q(b"11", b"?"), b"\x1b]11;rgb:0000/0000/0000\x1b\\".to_vec());
    assert_eq!(q(b"12", b"?"), Vec::<u8>::new());
    assert_eq!(q(b"10", b"#fff"), Vec::<u8>::new());
    assert_eq!(osc_reply(&vec![b"10".to_vec()]), Vec::<u8>::new());
}

#[test]
fn window_titles_are_cleaned() {
    let (title, event) = window_title(b"a\x07b\xffc");
    assert_eq!(title, "ab\u{fffd}c");
    assert_eq!(event, b"\x1b]2;ab\xffc\x07".to_vec());
    let (title, event) = window_title("⠋ Working".as_bytes());
    assert_eq!(title, "⠋ Working");
    let mut expected = b"\x1b]2;".to_vec();
    expected.extend_from_slice("⠋ Working".as_bytes());
    expected.push(7);
    assert_eq!(event, expected);
}

#[test]
fn snapshots_restore_the_title() {
    assert_eq!(with_title(b"snap".to_vec(), "T"), b"snap\x1b]2;T\x07".to_vec());
    assert_eq!(with_title(b"snap".to_vec(), ""), b"snap".to_vec());
}

#[test]
fn encodings() {
    assert_eq!(to_lower_hex(&[0x00, 0xab, 0x7f]).iter().collect::<String>(), "00ab7f");
    assert_eq!(utf16le_bytes("A😀"), vec![0x41, 0x00, 0x3d, 0xd8, 0x00, 0xde]);
    assert_eq!(
        encoded_command("Write-Output 'Ready'"),
        "VwByAGkAdABlAC0ATwB1AHQAcAB1AHQAIAAnAFIAZQBhAGQAeQAnAA=="
    );
}

#[test]
fn history_window_keeps_the_newest_rows_that_fit() {
    let mut window = HistoryWindow::new();
    let row = vec![b'x'; 1000];
    for _ in 0..600 {
        window.push_line(row.clone());
    }
    let out = window.finish(b"now".to_vec());
    let kept = (HISTORY_LIMIT / 1002) * 1002;
    assert_eq!(out.len(), kept + 3);
    assert!(out.ends_with(b"x\r\nnow"));
}

#[test]
fn history_window_makes_room_for_the_screen() {
    let mut window = HistoryWindow::new();
    window.push_line(vec![b'a'; 100]);
    window.push_line(vec![b'b'; 100]);
    let screen = vec![b's'; OUTPUT_LIMIT - 150];
    let out = window.finish(screen.clone());
    let mut expected = vec![b'b'; 100];
    expected.extend_from_slice(b"\r\n");
    expected.extend_from_slice(&screen);
    assert_eq!(out, expected);
    let mut window = HistoryWindow::new();
    window.push_line(b"a".to_vec());
    let big = vec![b's'; OUTPUT_LIMIT + 1];
    assert_eq!(window.finish(big.clone()), big);
}

#[test]
fn capture_returns_scrollback_then_screen() {
    let mut parser = vt100::Parser::new(3, 10, 100);
    parser.process(b"l1\r\nl2\r\nl3\r\nl4\r\nl5");
    let screen = parser.screen();
    let plain = capture(screen, 10, false);
    let mut expected = b"l1\r\nl2\r\n".to_vec();
    expected.extend_from_slice(screen.contents().as_bytes());
    assert_eq!(plain, expected);
    let none = capture(screen, 0, false);
    assert_eq!(none, screen.contents().into_bytes());
    let one = capture(screen, 1, false);
    let mut expected = b"l2\r\n".to_vec();
    expected.extend_from_slice(screen.contents().as_bytes());
    assert_eq!(one, expected);
    let vt = capture(screen, 10, true);
    assert!(vt.ends_with(&screen.state_formatted()));
}
