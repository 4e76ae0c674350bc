use base64::Engine;
use std::num::IntErrorKind;
use wmx::cli::{
    input_payload, parse_number, resolve_session, CliError, Command, NumberError, MAX_INPUT,
};

fn args(list: &[&str]) -> Vec<String> {
    list.iter().map(|s| s.to_string()).collect()
}

fn parse(list: &[&str]) -> Result<Command, CliError> {
    Command::parse(&args(list))
}

fn error(list: &[&str]) -> CliError {
    match parse(list) {
        Err(e) => e,
        Ok(_) => panic!("expected an error"),
    }
}

#[test]
fn no_arguments_ask_for_help() {
    assert!(matches!(parse(&[]), Ok(Command::Help)));
    assert!(matches!(parse(&["--help"]), Ok(Command::Help)));
    assert!(matches!(parse(&["-h"]), Ok(Command::Help)));
}

#[test]
fn unknown_command_is_refused() {
    assert_eq!(error(&["bogus"]), CliError::UnknownCommand);
    assert_eq!(
        CliError::UnknownCommand.message(),
        "Expected start, attach, list, exists, send, history, grid, resize, or kill"
    );
}

#[test]
fn attach_with_prompt_editor() {
    match parse(&["attach", "work", "--require-existing", "--prompt-editor", "monaco"]) {
        Ok(Command::Attach { name, prompt_editor }) => {
            assert_eq!(name, "work");
            assert_eq!(prompt_editor.as_deref(), Some("monaco"));
        }
        _ => panic!("expected attach"),
    }
    match parse(&["a", "--prompt-editor=code-server", "work"]) {
        Ok(Command::Attach { name, prompt_editor }) => {
            assert_eq!(name, "work");
            assert_eq!(prompt_editor.as_deref(), Some("code-server"));
        }
        _ => panic!("expected attach"),
    }
    match parse(&["attach", "work"]) {
        Ok(Command::Attach { name, prompt_editor }) => {
            assert_eq!(name, "work");
            assert_eq!(prompt_editor, None);
        }
        _ => panic!("expected attach"),
    }
}

#[test]
fn attach_refusals() {
    assert_eq!(error(&["attach", "work", "--prompt-editor", "vim"]), CliError::UnsupportedPromptEditor);
    assert_eq!(error(&["attach", "--prompt-editor="]), CliError::UnsupportedPromptEditor);
    assert_eq!(error(&["attach"]), CliError::MissingSessionName);
    assert_eq!(error(&["attach", "work", "other"]), CliError::UnsupportedAttachArgument);
    assert_eq!(error(&["attach", "--verbose"]), CliError::UnsupportedAttachArgument);
    assert_eq!(error(&["attach", "work", "--prompt-editor"]), CliError::MissingArgument);
    assert_eq!(CliError::UnsupportedAttachArgument.message(), "Unsupported attach argument");
    assert_eq!(CliError::UnsupportedPromptEditor.message(), "Unsupported prompt editor");
    assert_eq!(CliError::MissingSessionName.message(), "Missing session name");
}

#[test]
fn resize_operands() {
    match parse(&["resize", "w", "40", "+120"]) {
        Ok(Command::Resize { name, rows, cols }) => {
            assert_eq!(name, "w");
            assert_eq!((rows, cols), (40, 120));
        }
        _ => panic!("expected resize"),
    }
    match parse(&["refresh-if-stale", "w", "1", "65535"]) {
        Ok(Command::RefreshIfStale { name, rows, cols }) => {
            assert_eq!(name, "w");
            assert_eq!((rows, cols), (1, 65535));
        }
        _ => panic!("expected refresh-if-stale"),
    }
    assert_eq!(error(&["resize", "w", "x", "1"]), CliError::InvalidNumber(NumberError::InvalidDigit));
    assert_eq!(error(&["resize", "w", "70000", "1"]), CliError::InvalidNumber(NumberError::TooLarge));
    assert_eq!(error(&["resize", "w", "", "1"]), CliError::InvalidNumber(NumberError::Empty));
    assert_eq!(error(&["resize", "w", "1", "-1"]), CliError::InvalidNumber(NumberError::InvalidDigit));
    assert_eq!(error(&["resize", "w", "1"]), CliError::MissingArgument);
    assert_eq!(error(&["resize"]), CliError::MissingArgument);
}

#[test]
fn numbers_parse_as_std_does() {
    assert_eq!(parse_number("0", 65535), Ok(0));
    assert_eq!(parse_number("+7", 65535), Ok(7));
    assert_eq!(parse_number("65535", 65535), Ok(65535));
    assert_eq!(parse_number("65536", 65535), Err(NumberError::TooLarge));
    assert_eq!(parse_number("+", 65535), Err(NumberError::InvalidDigit));
    assert_eq!(parse_number("", 65535), Err(NumberError::Empty));
    assert_eq!(parse_number("１", 65535), Err(NumberError::InvalidDigit));
    assert_eq!(parse_number("4294967295", 4294967295), Ok(4294967295));
    for text in ["12", "+3", "99999", "", "a1", "+", "-0"] {
        let ours = parse_number(text, 65535).ok();
        let std = text.parse::<u16>().ok().map(u64::from);
        assert_eq!(ours, std, "{text}");
    }
    assert_eq!(CliError::InvalidNumber(NumberError::Empty).message(), "cannot parse integer from empty string");
    assert_eq!(CliError::InvalidNumber(NumberError::InvalidDigit).message(), "invalid digit found in string");
    assert_eq!(CliError::InvalidNumber(NumberError::TooLarge).message(), "number too large to fit in target type");
}

#[test]
fn history_operands() {
    match parse(&["history", "w", "--vt", "--scrollback", "20"]) {
        Ok(Command::History { name, vt, scrollback }) => {
            assert_eq!(name, "w");
            assert!(vt);
            assert_eq!(scrollback, 20);
        }
        _ => panic!("expected history"),
    }
    match parse(&["hi", "w"]) {
        Ok(Command::History { vt, scrollback, .. }) => {
            assert!(!vt);
            assert_eq!(scrollback, 10_000);
        }
        _ => panic!("expected history"),
    }
    match parse(&["history", "w", "--scrollback"]) {
        Ok(Command::History { scrollback, .. }) => assert_eq!(scrollback, 10_000),
        _ => panic!("expected history"),
    }
    assert_eq!(
        error(&["history", "w", "--scrollback", "many"]),
        CliError::InvalidNumber(NumberError::InvalidDigit)
    );
    assert_eq!(error(&["history"]), CliError::MissingArgument);
}

#[test]
fn send_joins_text_operands() {
    match parse(&["send", "w", "echo", "hi"]) {
        Ok(Command::Send { name, bytes, read_stdin }) => {
            assert_eq!(name, "w");
            assert_eq!(bytes, b"echo hi".to_vec());
            assert!(!read_stdin);
        }
        _ => panic!("expected send"),
    }
    match parse(&["s", "w"]) {
        Ok(Command::Send { bytes, read_stdin, .. }) => {
            assert!(bytes.is_empty());
            assert!(read_stdin);
        }
        _ => panic!("expected send"),
    }
    assert_eq!(error(&["send"]), CliError::MissingArgument);
    assert_eq!(CliError::MissingArgument.message(), "Missing session argument");
}

#[test]
fn input_payload_is_bounded() {
    assert_eq!(input_payload(&b"hi".to_vec()), Ok("aGk=".to_string()));
    assert_eq!(input_payload(&vec![b'x'; MAX_INPUT]).map(|s| s.len()), Ok(1398104));
    assert_eq!(input_payload(&vec![b'x'; MAX_INPUT + 1]), Err(CliError::InputTooLarge));
    assert_eq!(CliError::InputTooLarge.message(), "Input exceeds 1 MiB");
}

#[test]
fn kill_and_force_kill() {
    match parse(&["kill", "a", "b"]) {
        Ok(Command::Kill { names }) => assert_eq!(names, args(&["a", "b"])),
        _ => panic!("expected kill"),
    }
    match parse(&["k"]) {
        Ok(Command::Kill { names }) => assert!(names.is_empty()),
        _ => panic!("expected kill"),
    }
    match parse(&["kill", "--force", "w"]) {
        Ok(Command::ForceKill { name }) => assert_eq!(name, "w"),
        _ => panic!("expected force kill"),
    }
    assert_eq!(error(&["kill", "--force"]), CliError::MissingArgument);
}

#[test]
fn encoded_launch_is_decoded() {
    match parse(&["start-encoded", "eyJuYW1lIjoidyJ9"]) {
        Ok(Command::StartEncoded { launch }) => assert_eq!(launch, br#"{"name":"w"}"#.to_vec()),
        _ => panic!("expected start-encoded"),
    }
    match parse(&["serve-encoded", "aGk="]) {
        Ok(Command::ServeEncoded { launch }) => assert_eq!(launch, b"hi".to_vec()),
        _ => panic!("expected serve-encoded"),
    }
    let decoder = base64::engine::general_purpose::STANDARD.decode("not base64!").unwrap_err().to_string();
    assert_eq!(error(&["serve-encoded", "not base64!"]), CliError::InvalidEncoding(decoder.clone()));
    assert_eq!(CliError::InvalidEncoding(decoder.clone()).message(), decoder);
    assert_eq!(error(&["start-encoded"]), CliError::MissingArgument);
}

#[test]
fn simple_commands() {
    assert!(matches!(parse(&["serve"]), Ok(Command::Serve)));
    assert!(matches!(parse(&["start"]), Ok(Command::Start)));
    assert!(matches!(parse(&["v"]), Ok(Command::Version)));
    assert!(matches!(parse(&["--version"]), Ok(Command::Version)));
    assert!(matches!(parse(&["process-snapshot"]), Ok(Command::ProcessSnapshot)));
    assert!(matches!(parse(&["ls", "--short"]), Ok(Command::List { short: true })));
    assert!(matches!(parse(&["list"]), Ok(Command::List { short: false })));
    match parse(&["d"]) {
        Ok(Command::Detach { name }) => assert_eq!(name, None),
        _ => panic!("expected detach"),
    }
    match parse(&["prompt-editor-capability", "w"]) {
        Ok(Command::PromptEditorCapability { name }) => assert_eq!(name.as_deref(), Some("w")),
        _ => panic!("expected prompt-editor-capability"),
    }
    for verb in ["refresh", "inspect", "exists", "watch-title", "grid"] {
        assert_eq!(error(&[verb]), CliError::MissingArgument);
    }
    match parse(&["grid", "w"]) {
        Ok(Command::Grid { name }) => assert_eq!(name, "w"),
        _ => panic!("expected grid"),
    }
    match parse(&["watch-title", "w"]) {
        Ok(Command::WatchTitle { name }) => assert_eq!(name, "w"),
        _ => panic!("expected watch-title"),
    }
}

#[test]
fn aliases_match_long_names() {
    for (short, long) in [("a", "attach"), ("l", "list"), ("ls", "list"), ("s", "send"), ("hi", "history"), ("d", "detach"), ("k", "kill"), ("v", "version")] {
        for rest in [vec![], vec!["w"], vec!["w", "--short", "--vt"], vec!["w", "x", "y"]] {
            let mut a = vec![short];
            a.extend(rest.iter());
            let mut b = vec![long];
            b.extend(rest.iter());
            let x = parse(&a);
            let y = parse(&b);
            assert_eq!(format!("{:?}", x.as_ref().err()), format!("{:?}", y.as_ref().err()));
            assert_eq!(x.is_ok(), y.is_ok());
        }
    }
}

#[test]
fn session_name_falls_back_to_the_environment() {
    let s = |v: &str| Some(v.to_string());
    assert_eq!(resolve_session(s("a"), s("b"), s("c")), Ok("a".to_string()));
    assert_eq!(resolve_session(None, s("b"), s("c")), Ok("b".to_string()));
    assert_eq!(resolve_session(None, None, s("c")), Ok("c".to_string()));
    assert_eq!(resolve_session(None, None, None), Err(CliError::NotInsideSession));
    assert_eq!(CliError::NotInsideSession.message(), "Not inside a wmx session");
}

#[test]
fn number_errors_follow_std_order() {
    assert_eq!(parse_number("99999a", 65535), Err(NumberError::TooLarge));
    assert_eq!(parse_number("9a99999", 65535), Err(NumberError::InvalidDigit));
    for text in ["99999a", "9a99999", "655350", "65536x", "+", "", "+12", "12+", "0065535", "x"] {
        let std = match text.parse::<u16>() {
            Ok(v) => Ok(u64::from(v)),
            Err(e) => Err(match e.kind() {
                IntErrorKind::Empty => NumberError::Empty,
                IntErrorKind::PosOverflow => NumberError::TooLarge,
                _ => NumberError::InvalidDigit,
            }),
        };
        assert_eq!(parse_number(text, 65535), std, "{text}");
    }
}
