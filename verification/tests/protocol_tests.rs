use wmx::protocol::{
    check_endpoint, frame, is_record_file, registry_file_name, Endpoint, EndpointError,
    FrameError, FrameReader, MAX_FRAME, WIRE_GENERATION,
};

fn endpoint(protocol: u32, name: &str) -> Endpoint {
    Endpoint {
        protocol,
        name: name.to_string(),
        port: 4000,
        token: "t".to_string(),
        pid: 10,
        shell_pid: 11,
    }
}

#[test]
fn wire_generation_is_one() {
    assert_eq!(WIRE_GENERATION, 1);
    assert_eq!(MAX_FRAME, 2 * 1024 * 1024);
}

#[test]
fn frames_end_in_a_newline() {
    assert_eq!(frame(b"{}".to_vec()), Ok(b"{}\n".to_vec()));
    assert_eq!(frame(vec![b'x'; MAX_FRAME]).map(|v| v.len()), Ok(MAX_FRAME + 1));
    assert_eq!(frame(vec![b'x'; MAX_FRAME + 1]), Err(FrameError::TooLarge));
    assert_eq!(FrameError::TooLarge.message(), "Session message exceeds its size limit");
}

#[test]
fn written_frame_reads_back() {
    let message = br#"{"title":"x"}"#.to_vec();
    let framed = frame(message.clone()).unwrap();
    let mut reader = FrameReader::new();
    assert_eq!(reader.accept(&framed), Ok((framed.len(), true)));
    assert_eq!(reader.into_bytes(), framed);
}

#[test]
fn reader_assembles_chunks_and_stops_at_newline() {
    let mut reader = FrameReader::new();
    assert_eq!(reader.accept(b"{\"a\":"), Ok((5, false)));
    assert_eq!(reader.accept(b"1}\n{\"b\""), Ok((3, true)));
    assert_eq!(reader.into_bytes(), b"{\"a\":1}\n".to_vec());
}

#[test]
fn reader_refusals() {
    let mut reader = FrameReader::new();
    assert_eq!(reader.accept(b""), Err(FrameError::Closed));
    assert_eq!(FrameError::Closed.message(), "Session connection closed");
    let big = vec![b'x'; MAX_FRAME];
    assert_eq!(reader.accept(&big), Ok((MAX_FRAME, false)));
    assert_eq!(reader.accept(b"\n"), Err(FrameError::TooLarge));
    assert_eq!(reader.into_bytes().len(), MAX_FRAME);
}

#[test]
fn registry_file_is_the_hashed_name() {
    assert_eq!(
        registry_file_name("work"),
        "00e13ed7af55b27622f1d6eab5bec0147e68efe28dc2b12461117afa1a5ed40e.json"
    );
}

#[test]
fn record_files_have_a_json_extension() {
    assert!(is_record_file("abc.json"));
    assert!(is_record_file("a.b.json"));
    assert!(!is_record_file(".json"));
    assert!(!is_record_file("abc.lock"));
    assert!(!is_record_file("abc.json.new"));
    assert!(!is_record_file("json"));
}

#[test]
fn endpoint_checks() {
    assert_eq!(check_endpoint(&endpoint(1, "w"), "w"), Ok(()));
    assert_eq!(check_endpoint(&endpoint(2, "w"), "w"), Err(EndpointError::UnsupportedProtocol));
    assert_eq!(check_endpoint(&endpoint(1, "x"), "w"), Err(EndpointError::IdentityMismatch));
    assert_eq!(
        EndpointError::UnsupportedProtocol.message(),
        "This native session uses an unsupported protocol version"
    );
    assert_eq!(EndpointError::IdentityMismatch.message(), "Session endpoint identity does not match");
    let copy = endpoint(1, "w").clone();
    assert_eq!((copy.name.as_str(), copy.port, copy.pid, copy.shell_pid), ("w", 4000, 10, 11));
}

#[test]
fn split_frame_reads_back() {
    let message = br#"{"output":"aGk="}"#.to_vec();
    let framed = frame(message.clone()).unwrap();
    for k in 1..framed.len() {
        let mut reader = FrameReader::new();
        assert_eq!(reader.accept(&framed[..k]), Ok((k, false)));
        assert_eq!(reader.accept(&framed[k..]), Ok((framed.len() - k, true)));
        assert_eq!(reader.into_bytes(), framed);
    }
}
