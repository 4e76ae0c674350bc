use wmx::input::{Input, InputFilter};

fn bytes_of(event: &Input) -> Option<Vec<u8>> {
    match event {
        Input::Bytes(b) => Some(b.clone()),
        _ => None,
    }
}

#[test]
fn plain_input_is_forwarded_whole() {
    let mut filter = InputFilter::new();
    let events = filter.feed(b"echo hi\r", true);
    assert_eq!(events.len(), 1);
    assert_eq!(bytes_of(&events[0]), Some(b"echo hi\r".to_vec()));
    assert!(filter.flush().is_empty());
}

#[test]
fn empty_feed_gives_nothing() {
    let mut filter = InputFilter::default();
    assert!(filter.feed(b"", true).is_empty());
}

#[test]
fn detach_key_ends_the_feed() {
    let mut filter = InputFilter::new();
    let events = filter.feed(b"ab\x1ccd", true);
    assert_eq!(events.len(), 2);
    assert_eq!(bytes_of(&events[0]), Some(b"ab".to_vec()));
    assert!(matches!(events[1], Input::Detach));
    let rest = filter.flush();
    assert_eq!(rest.len(), 1);
    assert_eq!(bytes_of(&rest[0]), Some(b"cd".to_vec()));
}

#[test]
fn detach_key_disabled_is_forwarded() {
    let mut filter = InputFilter::new();
    let events = filter.feed(b"ab\x1ccd", false);
    assert_eq!(events.len(), 1);
    assert_eq!(bytes_of(&events[0]), Some(b"ab\x1ccd".to_vec()));
}

#[test]
fn refresh_control_is_split_out() {
    let mut filter = InputFilter::new();
    let events = filter.feed(b"x\x1b]1337;ZMX_REFRESH\x07y", true);
    assert_eq!(events.len(), 3);
    assert_eq!(bytes_of(&events[0]), Some(b"x".to_vec()));
    assert!(matches!(events[1], Input::Refresh));
    assert_eq!(bytes_of(&events[2]), Some(b"y".to_vec()));
}

#[test]
fn visibility_controls_become_events() {
    let mut filter = InputFilter::new();
    let events = filter.feed(
        b"\x1b]1337;ZMX_VISIBLE=40,120\x07\x1b]1337;ZMX_CHAT=30,80\x07\x1b]1337;ZMX_HIDDEN=1,2\x07",
        true,
    );
    assert_eq!(events.len(), 3);
    assert!(matches!(events[0], Input::Visibility { state: "visible", rows: 40, cols: 120 }));
    assert!(matches!(events[1], Input::Visibility { state: "chat", rows: 30, cols: 80 }));
    assert!(matches!(events[2], Input::Visibility { state: "parked", rows: 1, cols: 2 }));
}

#[test]
fn invalid_visibility_controls_are_dropped() {
    let mut filter = InputFilter::new();
    let events = filter.feed(
        b"\x1b]1337;ZMX_VISIBLE=0,120\x07\x1b]1337;ZMX_VISIBLE=40\x07\x1b]1337;ZMX_OTHER\x07",
        true,
    );
    assert!(events.is_empty());
}

#[test]
fn control_split_across_feeds_is_held_back() {
    let mut filter = InputFilter::new();
    assert!(filter.feed(b"\x1b]1337;ZMX_VIS", true).is_empty());
    assert!(filter.flush().is_empty());
    let events = filter.feed(b"IBLE=10,20\x07", true);
    assert_eq!(events.len(), 1);
    assert!(matches!(events[0], Input::Visibility { state: "visible", rows: 10, cols: 20 }));
}

#[test]
fn partial_prefix_is_forwarded_on_flush() {
    let mut filter = InputFilter::new();
    assert!(filter.feed(b"\x1b]13", true).is_empty());
    let events = filter.flush();
    assert_eq!(events.len(), 1);
    assert_eq!(bytes_of(&events[0]), Some(b"\x1b]13".to_vec()));
}

#[test]
fn other_escapes_are_forwarded() {
    let mut filter = InputFilter::new();
    let events = filter.feed(b"\x1b[A\x1b]0;title\x07", true);
    assert_eq!(events.len(), 1);
    assert_eq!(bytes_of(&events[0]), Some(b"\x1b[A\x1b]0;title\x07".to_vec()));
}

#[test]
fn overlong_unterminated_control_is_dropped() {
    let mut filter = InputFilter::new();
    let mut bytes = b"\x1b]1337;ZMX_".to_vec();
    bytes.extend(std::iter::repeat(b'9').take(200));
    assert!(filter.feed(&bytes, true).is_empty());
    let events = filter.feed(b"ok", true);
    assert_eq!(events.len(), 1);
    assert_eq!(bytes_of(&events[0]), Some(b"ok".to_vec()));
}
