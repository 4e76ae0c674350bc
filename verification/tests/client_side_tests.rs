use base64::Engine;
use wmx::attachment::{decode_output, new_client_id, route, size_report, supports_visibility, OutputError, Route};
use wmx::client::{start_step, StartError, StartStep, START_ATTEMPTS};
use wmx::input::Input;
use wmx::launch::{
    creation_flags, exit_status, host_command_line, retry_without_breakaway, wide_nul,
};

#[test]
fn command_line_quotes_the_executable() {
    assert_eq!(
        host_command_line("C:\\Program Files\\wmx.exe", "eyJ9"),
        "\"C:\\Program Files\\wmx.exe\" serve-encoded eyJ9"
    );
}

#[test]
fn creation_flags_and_retry() {
    assert_eq!(creation_flags(true), 0x0100_0208);
    assert_eq!(creation_flags(false), 0x0000_0208);
    assert!(retry_without_breakaway(Some(5)));
    assert!(!retry_without_breakaway(Some(2)));
    assert!(!retry_without_breakaway(None));
}

#[test]
fn exit_codes() {
    assert_eq!(exit_status(259), None);
    assert_eq!(exit_status(0), Some(0));
    assert_eq!(exit_status(1), Some(1));
}

#[test]
fn wide_strings_are_nul_terminated_utf16() {
    assert_eq!(wide_nul("a😀"), vec![0x61, 0xD83D, 0xDE00, 0]);
    assert_eq!(wide_nul(""), vec![0]);
}

#[test]
fn start_steps() {
    assert_eq!(START_ATTEMPTS, 100);
    assert_eq!(start_step(true, Some(3)), StartStep::Ready);
    assert_eq!(start_step(false, Some(3)), StartStep::Fail(StartError::HostExited(3)));
    assert_eq!(start_step(false, None), StartStep::Wait);
    assert_eq!(StartError::HostExited(3).message(), "Native session host exited with status 3");
    assert_eq!(
        StartError::HostExited(4294967295).message(),
        "Native session host exited with status 4294967295"
    );
    assert_eq!(StartError::NotReady.message(), "Native PowerShell session did not become ready");
}

#[test]
fn visibility_capability() {
    let caps = |v: &[&str]| v.iter().map(|s| s.to_string()).collect::<Vec<_>>();
    assert!(supports_visibility(&caps(&["client-visibility", "refresh", "detach"])));
    assert!(!supports_visibility(&caps(&["refresh"])));
    assert!(!supports_visibility(&caps(&[])));
}

#[test]
fn routes_with_client_visibility() {
    match route(Input::Bytes(b"hi".to_vec()), true, 7) {
        Route::Input { payload, client_id } => {
            assert_eq!(payload, "aGk=");
            assert_eq!(client_id, Some(7));
        }
        _ => panic!("expected input"),
    }
    assert!(matches!(
        route(Input::Visibility { state: "parked", rows: 1, cols: 2 }, true, 7),
        Route::Visibility { client_id: 7, state: "parked", rows: 1, cols: 2 }
    ));
    assert!(matches!(route(Input::Refresh, true, 7), Route::Refresh { client_id: 7 }));
    assert!(matches!(route(Input::Detach, true, 7), Route::Detach));
}

#[test]
fn routes_for_older_hosts() {
    match route(Input::Bytes(b"hi".to_vec()), false, 7) {
        Route::Input { payload, client_id } => {
            assert_eq!(payload, "aGk=");
            assert_eq!(client_id, None);
        }
        _ => panic!("expected input"),
    }
    assert!(matches!(
        route(Input::Visibility { state: "chat", rows: 3, cols: 4 }, false, 7),
        Route::Resize { client_id: None, rows: 3, cols: 4 }
    ));
    assert!(matches!(route(Input::Visibility { state: "parked", rows: 3, cols: 4 }, false, 7), Route::Skip));
    assert!(matches!(route(Input::Refresh, false, 7), Route::Skip));
}

#[test]
fn size_changes_are_reported_once() {
    assert!(size_report((50, 200), 50, 200, true, 7).is_none());
    assert!(matches!(
        size_report((50, 200), 40, 100, true, 7),
        Some(Route::Resize { client_id: Some(7), rows: 40, cols: 100 })
    ));
    assert!(matches!(
        size_report((50, 200), 40, 100, false, 7),
        Some(Route::Resize { client_id: None, rows: 40, cols: 100 })
    ));
}

#[test]
fn host_frames() {
    match decode_output(None, Some("aGk=".to_string())) {
        Ok(bytes) => assert_eq!(bytes, b"hi".to_vec()),
        Err(_) => panic!("expected output"),
    }
    match decode_output(Some("Duplicate client id".to_string()), Some("aGk=".to_string())) {
        Err(e) => assert_eq!(e.message(), "Duplicate client id"),
        Ok(_) => panic!("expected an error"),
    }
    match decode_output(None, None) {
        Err(e) => {
            assert!(matches!(e, OutputError::Missing));
            assert_eq!(e.message(), "Invalid terminal output");
        }
        Ok(_) => panic!("expected an error"),
    }
    let decoder = base64::engine::general_purpose::STANDARD.decode("%%%").unwrap_err().to_string();
    match decode_output(None, Some("%%%".to_string())) {
        Err(e) => {
            assert!(matches!(&e, OutputError::InvalidEncoding(m) if *m == decoder));
            assert_eq!(e.message(), decoder);
        }
        Ok(_) => panic!("expected an error"),
    }
}

#[test]
fn client_ids_fit_in_32_bits() {
    for _ in 0..16 {
        assert!(new_client_id() <= u32::MAX as u64);
    }
}
