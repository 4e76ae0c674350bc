use wmx::process_owner::{
    file_name, filetime_ticks, inspect, is_host_image, same_record, unix_nanos_to_ticks, Opened,
    OwnerError, ProcessProbe, Query, STILL_ACTIVE, UNIX_EPOCH_TICKS,
};
use wmx::protocol::Endpoint;

fn record(name: &str) -> Endpoint {
    Endpoint {
        protocol: 1,
        name: name.to_string(),
        port: 5000,
        token: "tok".to_string(),
        pid: 77,
        shell_pid: 78,
    }
}

fn live(image: &str) -> ProcessProbe {
    ProcessProbe {
        opened: Opened::Yes,
        exit_code: Some(STILL_ACTIVE),
        image: Some(image.to_string()),
        created: Some(100),
        modified: Some(200),
    }
}

fn owner(name: &str, rec: Option<Endpoint>, probe: &ProcessProbe) -> Result<Option<u32>, OwnerError> {
    inspect(name, rec, probe).map(|found| found.map(|e| e.pid))
}

#[test]
fn file_names_of_windows_paths() {
    let f = |p: &str| file_name(p);
    assert_eq!(f("C:\\Program Files\\wmx\\wmx.exe").as_deref(), Some("wmx.exe"));
    assert_eq!(f("C:/tools/WMX.EXE").as_deref(), Some("WMX.EXE"));
    assert_eq!(f("C:\\tools\\").as_deref(), Some("tools"));
    assert_eq!(f("C:\\tools\\.").as_deref(), Some("tools"));
    assert_eq!(f("C:\\tools\\..").as_deref(), None);
    assert_eq!(f("C:\\").as_deref(), None);
    assert_eq!(f("C:").as_deref(), None);
    assert_eq!(f("C:wmx.exe").as_deref(), Some("wmx.exe"));
    assert_eq!(f("wmx.exe").as_deref(), Some("wmx.exe"));
    assert_eq!(f("").as_deref(), None);
    assert_eq!(f(".").as_deref(), None);
    assert_eq!(f("\\\\server\\share").as_deref(), None);
    assert_eq!(f("\\\\server\\share\\").as_deref(), None);
    assert_eq!(f("\\\\server\\share\\bin\\wmx.exe").as_deref(), Some("wmx.exe"));
    assert_eq!(f("\\\\?\\C:\\dir\\wmx.exe").as_deref(), Some("wmx.exe"));
    assert_eq!(f("\\\\?\\C:\\dir\\.").as_deref(), None);
    assert_eq!(f("\\\\?\\C:\\dir/wmx.exe").as_deref(), Some("dir/wmx.exe"));
    assert_eq!(f("\\\\?\\UNC\\server\\share").as_deref(), None);
    assert_eq!(f("\\\\?\\UNC\\server\\share\\wmx.exe").as_deref(), Some("wmx.exe"));
    assert_eq!(f("\\\\.\\COM1").as_deref(), None);
    assert_eq!(f("\\\\.\\pipe\\wmx").as_deref(), Some("wmx"));
}

#[test]
fn host_images() {
    assert!(is_host_image("wmx.exe"));
    assert!(is_host_image("ghostex-session-host.exe"));
    assert!(!is_host_image("WMX.EXE"));
    assert!(!is_host_image("pwsh.exe"));
}

#[test]
fn times() {
    assert_eq!(filetime_ticks(1, 2), 4_294_967_298);
    assert_eq!(filetime_ticks(0, 0), 0);
    assert_eq!(unix_nanos_to_ticks(0), UNIX_EPOCH_TICKS);
    assert_eq!(unix_nanos_to_ticks(1_234), UNIX_EPOCH_TICKS + 12);
}

#[test]
fn live_host_is_the_owner() {
    assert_eq!(owner("w", Some(record("w")), &live("C:\\bin\\wmx.exe")), Ok(Some(77)));
    assert_eq!(owner("w", Some(record("w")), &live("C:\\bin\\WMX.EXE")), Ok(Some(77)));
    assert_eq!(
        owner("w", Some(record("w")), &live("D:\\x\\Ghostex-Session-Host.exe")),
        Ok(Some(77))
    );
}

#[test]
fn missing_record_or_process_means_no_owner() {
    assert_eq!(owner("w", None, &live("wmx.exe")), Ok(None));
    let mut probe = live("wmx.exe");
    probe.opened = Opened::NoSuchProcess;
    assert_eq!(owner("w", Some(record("w")), &probe), Ok(None));
}

#[test]
fn reused_process_id_is_rejected() {
    let mut exited = live("wmx.exe");
    exited.exit_code = Some(0);
    assert_eq!(owner("w", Some(record("w")), &exited), Ok(None));
    assert_eq!(owner("w", Some(record("w")), &live("C:\\bin\\pwsh.exe")), Ok(None));
    let mut newer = live("wmx.exe");
    newer.created = Some(201);
    assert_eq!(owner("w", Some(record("w")), &newer), Ok(None));
    newer.created = Some(200);
    assert_eq!(owner("w", Some(record("w")), &newer), Ok(Some(77)));
}

#[test]
fn failures_are_reported_in_order() {
    assert_eq!(owner("w", Some(record("x")), &live("wmx.exe")), Err(OwnerError::IdentityMismatch));
    let mut probe = live("wmx.exe");
    probe.created = None;
    probe.modified = None;
    assert_eq!(owner("w", Some(record("w")), &probe), Err(OwnerError::QueryFailed(Query::Times)));
    probe.created = Some(1);
    assert_eq!(owner("w", Some(record("w")), &probe), Err(OwnerError::QueryFailed(Query::Modified)));
    let mut probe = live("C:\\");
    assert_eq!(owner("w", Some(record("w")), &probe), Err(OwnerError::MissingImage));
    probe.image = None;
    assert_eq!(owner("w", Some(record("w")), &probe), Err(OwnerError::QueryFailed(Query::Image)));
    probe.exit_code = None;
    assert_eq!(owner("w", Some(record("w")), &probe), Err(OwnerError::QueryFailed(Query::ExitCode)));
    probe.opened = Opened::Failed;
    assert_eq!(owner("w", Some(record("w")), &probe), Err(OwnerError::QueryFailed(Query::Open)));
    let mut exited = live("C:\\");
    exited.exit_code = Some(1);
    assert_eq!(owner("w", Some(record("w")), &exited), Ok(None));
    assert_eq!(OwnerError::MissingImage.message(), "Missing process image");
    assert_eq!(OwnerError::IdentityMismatch.message(), "Session endpoint identity does not match");
}

#[test]
fn record_is_removed_only_when_unchanged() {
    let stopped = record("w");
    assert!(same_record(&record("w"), &stopped));
    let mut replaced = record("w");
    replaced.token = "other".to_string();
    assert!(!same_record(&replaced, &stopped));
    replaced = record("w");
    replaced.pid = 1;
    assert!(!same_record(&replaced, &stopped));
}
