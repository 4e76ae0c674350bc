use wmx::daemon::{admit_client, attach_size, refresh_applies};
use base64::Engine;
use wmx::cli::input_payload;
use wmx::daemon::{
    attach_client_id, authenticate, dimension, encode_output, new_session_token, session_environment,
    shell_arguments, Dimension, Plan, RequestData, ServeError, MAX_WORKERS,
};
use wmx::display::Visibility;

fn data() -> RequestData {
    RequestData {
        text: None,
        bytes: None,
        client_id: None,
        rows: None,
        cols: None,
        state: None,
        vt: None,
        scrollback: None,
        prompt_editor: None,
    }
}

fn plan_error(operation: &str, data: &RequestData) -> ServeError {
    match Plan::of(operation, data) {
        Err(e) => e,
        Ok(_) => panic!("expected a refusal"),
    }
}

#[test]
fn tokens_authenticate_exactly() {
    assert!(authenticate("secret", "secret"));
    assert!(!authenticate("secreT", "secret"));
    assert!(!authenticate("secret1", "secret"));
    assert!(!authenticate("", "secret"));
}

#[test]
fn dimensions_are_bounded() {
    assert_eq!(dimension(None), None);
    assert_eq!(dimension(Some(0)), None);
    assert_eq!(dimension(Some(1)), Some(1));
    assert_eq!(dimension(Some(2000)), Some(2000));
    assert_eq!(dimension(Some(2001)), None);
}

#[test]
fn unknown_operation_is_refused() {
    assert_eq!(plan_error("reboot", &data()), ServeError::UnknownOperation);
    assert_eq!(ServeError::UnknownOperation.message(), "Unknown native session operation");
    assert_eq!(ServeError::AuthenticationFailed.message(), "Session authentication failed");
}

#[test]
fn input_plans() {
    let mut d = data();
    assert_eq!(plan_error("input", &d), ServeError::MissingInput);
    d.text = Some("not base64!".to_string());
    let decoder = base64::engine::general_purpose::STANDARD.decode("not base64!").unwrap_err().to_string();
    assert_eq!(plan_error("input", &d), ServeError::InvalidInput(decoder.clone()));
    assert_eq!(ServeError::InvalidInput(decoder.clone()).message(), decoder);
    d.text = None;
    d.bytes = Some("aGk=".to_string());
    d.client_id = Some(9);
    match Plan::of("input", &d) {
        Ok(Plan::Input { bytes, client_id }) => {
            assert_eq!(bytes, b"hi".to_vec());
            assert_eq!(client_id, Some(9));
        }
        _ => panic!("expected input"),
    }
    assert_eq!(ServeError::MissingInput.message(), "Missing input");
}

#[test]
fn sent_input_arrives_unchanged() {
    let sent = "Get-ChildItem\r\n\u{1b}[A é".as_bytes().to_vec();
    let payload = input_payload(&sent).unwrap();
    let mut d = data();
    d.text = Some(payload);
    match Plan::of("input", &d) {
        Ok(Plan::Input { bytes, client_id }) => {
            assert_eq!(bytes, sent);
            assert_eq!(client_id, None);
        }
        _ => panic!("expected input"),
    }
}

#[test]
fn resize_plans_need_valid_dimensions() {
    let mut d = data();
    assert_eq!(plan_error("resize", &d), ServeError::InvalidDimension(Dimension::Rows));
    d.rows = Some(40);
    assert_eq!(plan_error("refresh-if-stale", &d), ServeError::InvalidDimension(Dimension::Cols));
    d.cols = Some(3000);
    assert_eq!(plan_error("resize", &d), ServeError::InvalidDimension(Dimension::Cols));
    d.cols = Some(120);
    match Plan::of("resize", &d) {
        Ok(Plan::Resize { client_id, rows, cols }) => assert_eq!((client_id, rows, cols), (None, 40, 120)),
        _ => panic!("expected resize"),
    }
    match Plan::of("refresh-if-stale", &d) {
        Ok(Plan::RefreshIfStale { rows, cols }) => assert_eq!((rows, cols), (40, 120)),
        _ => panic!("expected refresh-if-stale"),
    }
    assert_eq!(ServeError::InvalidDimension(Dimension::Rows).message(), "Invalid terminal rows");
    assert_eq!(ServeError::InvalidDimension(Dimension::Cols).message(), "Invalid terminal cols");
}

#[test]
fn visibility_plans() {
    let mut d = data();
    assert_eq!(plan_error("visibility", &d), ServeError::MissingClientId);
    d.client_id = Some(3);
    assert_eq!(plan_error("visibility", &d), ServeError::InvalidVisibility);
    d.state = Some("hidden".to_string());
    assert_eq!(plan_error("visibility", &d), ServeError::InvalidVisibility);
    d.state = Some("chat".to_string());
    assert_eq!(plan_error("visibility", &d), ServeError::InvalidDimension(Dimension::Rows));
    d.rows = Some(10);
    d.cols = Some(20);
    match Plan::of("visibility", &d) {
        Ok(Plan::Visibility { client_id, visibility, rows, cols }) => {
            assert_eq!((client_id, visibility, rows, cols), (3, Visibility::Chat, 10, 20));
        }
        _ => panic!("expected visibility"),
    }
    assert_eq!(ServeError::MissingClientId.message(), "Missing client id");
    assert_eq!(ServeError::InvalidVisibility.message(), "Invalid visibility");
}

#[test]
fn attach_plan_keeps_valid_fields() {
    let mut d = data();
    d.client_id = Some(5);
    d.rows = Some(0);
    d.cols = Some(80);
    d.prompt_editor = Some("vim".to_string());
    match Plan::of("attach", &d) {
        Ok(Plan::Attach { client_id, rows, cols, prompt_editor }) => {
            assert_eq!((client_id, rows, cols, prompt_editor), (Some(5), None, Some(80), None));
        }
        _ => panic!("expected attach"),
    }
    d.prompt_editor = Some("code-server".to_string());
    match Plan::of("attach", &d) {
        Ok(Plan::Attach { prompt_editor, .. }) => assert_eq!(prompt_editor.as_deref(), Some("code-server")),
        _ => panic!("expected attach"),
    }
}

#[test]
fn history_plan_clamps_scrollback() {
    let mut d = data();
    match Plan::of("history", &d) {
        Ok(Plan::History { vt, scrollback }) => assert_eq!((vt, scrollback), (false, 0)),
        _ => panic!("expected history"),
    }
    d.vt = Some(true);
    d.scrollback = Some(50_000);
    match Plan::of("history", &d) {
        Ok(Plan::History { vt, scrollback }) => assert_eq!((vt, scrollback), (true, 10_000)),
        _ => panic!("expected history"),
    }
}

#[test]
fn simple_plans() {
    let d = data();
    assert!(matches!(Plan::of("watch-title", &d), Ok(Plan::WatchTitle)));
    assert!(matches!(Plan::of("ping", &d), Ok(Plan::Ping)));
    assert!(matches!(Plan::of("refresh", &d), Ok(Plan::Refresh { client_id: None })));
    assert!(matches!(Plan::of("detach", &d), Ok(Plan::Detach)));
    assert!(matches!(Plan::of("prompt-editor-capability", &d), Ok(Plan::PromptEditorCapability)));
    assert!(matches!(Plan::of("grid", &d), Ok(Plan::Grid)));
    assert!(matches!(Plan::of("kill", &d), Ok(Plan::Kill)));
}

#[test]
fn session_tokens_are_32_random_bytes() {
    let a = new_session_token();
    let b = new_session_token();
    assert_eq!(a.len(), 44);
    let decoded = base64::engine::general_purpose::STANDARD.decode(&a).unwrap();
    assert_eq!(decoded.len(), 32);
    assert_ne!(a, b);
}

#[test]
fn client_ids() {
    assert_eq!(attach_client_id(Some(42)), 42);
    let _ = attach_client_id(None);
    assert_eq!(MAX_WORKERS, 64);
}

#[test]
fn output_is_base64() {
    assert_eq!(encode_output(&b"\x1b[2J".to_vec()), "G1sySg==");
}

#[test]
fn shell_arguments_encode_startup() {
    let args = shell_arguments(&Some("Write-Output 'Ready'".to_string()));
    assert_eq!(
        args,
        vec![
            "-NoLogo".to_string(),
            "-NoExit".to_string(),
            "-EncodedCommand".to_string(),
            "VwByAGkAdABlAC0ATwB1AHQAcAB1AHQAIAAnAFIAZQBhAGQAeQAnAA==".to_string(),
        ]
    );
    assert_eq!(shell_arguments(&None)[3], "");
}

#[test]
fn environment_names_the_session() {
    let env = session_environment("work", None);
    let pairs: Vec<(&str, &str)> = env.iter().map(|(k, v)| (k.as_str(), v.as_str())).collect();
    assert_eq!(
        pairs,
        vec![
            ("TERM", "xterm-256color"),
            ("COLORTERM", "truecolor"),
            ("TERM_PROGRAM", "wmx"),
            ("WMX_SESSION", "work"),
            ("ZMX_SESSION", "work"),
        ]
    );
    assert_eq!(session_environment("w", Some("vscode".to_string()))[2].1, "vscode");
}

#[test]
fn attach_decisions() {
    assert_eq!(admit_client(&vec![1, 2], 3), Ok(()));
    assert_eq!(admit_client(&vec![1, 2], 2), Err(ServeError::DuplicateClient));
    assert_eq!(ServeError::DuplicateClient.message(), "Duplicate client id");
    assert_eq!(attach_size(Some(40), None, (50, 200)), (40, 200));
    assert_eq!(attach_size(None, None, (50, 200)), (50, 200));
    assert!(refresh_applies((50, 200), 40, 200));
    assert!(!refresh_applies((50, 200), 50, 200));
}
