use wmx::display::{DisplayPolicy, Visibility, RESTING_COLS, RESTING_ROWS};

#[test]
fn visibility_names_round_trip() {
    assert_eq!(Visibility::parse("visible"), Some(Visibility::Visible));
    assert_eq!(Visibility::parse("chat"), Some(Visibility::Chat));
    assert_eq!(Visibility::parse("parked"), Some(Visibility::Parked));
    assert_eq!(Visibility::parse("hidden"), None);
    assert_eq!(Visibility::Visible.name(), "visible");
    assert_eq!(Visibility::Chat.name(), "chat");
    assert_eq!(Visibility::Parked.name(), "parked");
}

#[test]
fn no_clients_keep_the_grid() {
    let policy = DisplayPolicy::default();
    assert_eq!(policy.leader(), None);
    assert_eq!(policy.grid((24, 80)), (24, 80));
    assert_eq!(policy.prompt_editor(), "editor");
}

#[test]
fn latest_attached_client_leads() {
    let mut policy = DisplayPolicy::new();
    policy.attach(1, 40, 120, None);
    assert_eq!(policy.leader(), Some(1));
    assert_eq!(policy.grid((50, 200)), (40, 120));
    policy.attach(2, 30, 90, Some("monaco".to_string()));
    assert_eq!(policy.leader(), Some(2));
    assert_eq!(policy.grid((50, 200)), (30, 90));
    assert_eq!(policy.prompt_editor(), "monaco");
}

#[test]
fn input_from_a_visible_client_takes_the_lead() {
    let mut policy = DisplayPolicy::new();
    policy.attach(1, 40, 120, None);
    policy.attach(2, 30, 90, None);
    policy.input(1);
    assert_eq!(policy.leader(), Some(1));
    assert_eq!(policy.grid((50, 200)), (40, 120));
}

#[test]
fn parked_client_hands_the_lead_back() {
    let mut policy = DisplayPolicy::new();
    policy.attach(1, 40, 120, None);
    policy.attach(2, 30, 90, Some("code-server".to_string()));
    policy.visibility(2, Visibility::Parked, 30, 90);
    assert_eq!(policy.leader(), Some(1));
    assert_eq!(policy.prompt_editor(), "editor");
    policy.input(2);
    assert_eq!(policy.leader(), Some(1));
}

#[test]
fn chat_client_widens_to_the_resting_width() {
    let mut policy = DisplayPolicy::new();
    policy.attach(1, 40, 120, None);
    policy.visibility(1, Visibility::Chat, 30, 80);
    assert_eq!(policy.leader(), None);
    assert!(policy.chat_claim());
    assert_eq!(policy.grid((50, 100)), (30, RESTING_COLS));
    assert_eq!(policy.grid((50, 300)), (30, 300));
}

#[test]
fn resize_is_ignored_after_an_explicit_report() {
    let mut policy = DisplayPolicy::new();
    policy.attach(1, 40, 120, None);
    policy.resize(1, 20, 60);
    assert_eq!(policy.grid((0, 0)), (20, 60));
    policy.visibility(1, Visibility::Visible, 33, 99);
    policy.resize(1, 10, 10);
    assert_eq!(policy.grid((0, 0)), (33, 99));
}

#[test]
fn removed_client_no_longer_leads() {
    let mut policy = DisplayPolicy::new();
    policy.attach(1, 40, 120, None);
    policy.attach(2, 30, 90, None);
    policy.remove(2);
    assert_eq!(policy.leader(), Some(1));
    policy.remove(1);
    assert_eq!(policy.leader(), None);
    assert_eq!(policy.grid((12, 34)), (12, 34));
}

#[test]
fn unknown_clients_are_ignored() {
    let mut policy = DisplayPolicy::new();
    policy.resize(9, 1, 1);
    policy.visibility(9, Visibility::Visible, 1, 1);
    policy.input(9);
    assert_eq!(policy.leader(), None);
}

#[test]
fn snapshot_reports_leader_and_clients() {
    let mut policy = DisplayPolicy::new();
    policy.attach(7, 40, 120, None);
    policy.attach(3, 30, 90, None);
    policy.visibility(3, Visibility::Chat, 31, 91);
    let snap = policy.snapshot(40, 120);
    assert_eq!((snap.rows, snap.cols), (40, 120));
    assert_eq!(snap.leader, Some(7));
    assert_eq!((snap.resting_rows, snap.resting_cols), (RESTING_ROWS, RESTING_COLS));
    assert!(snap.chat_claim);
    assert_eq!(snap.clients.len(), 2);
    assert_eq!(snap.clients[0].id, 3);
    assert_eq!(snap.clients[0].visibility, Visibility::Chat);
    assert_eq!((snap.clients[0].rows, snap.clients[0].cols), (31, 91));
    assert_eq!(snap.clients[0].activity, 2);
    assert_eq!(snap.clients[1].id, 7);
    assert_eq!(snap.clients[1].activity, 1);
}

#[test]
fn grid_follows_the_call_history() {
    let mut p = DisplayPolicy::new();
    p.attach(1, 30, 100, None);
    p.attach(2, 40, 120, Some("vim".to_string()));
    p.resize(1, 31, 101);
    assert_eq!(p.grid((24, 80)), (40, 120));
    p.input(1);
    assert_eq!(p.grid((24, 80)), (31, 101));
    p.visibility(1, Visibility::Chat, 20, 90);
    p.resize(1, 22, 95);
    assert_eq!(p.grid((24, 80)), (40, 120));
    p.visibility(2, Visibility::Parked, 10, 10);
    assert_eq!(p.grid((24, 80)), (20, RESTING_COLS));
    assert_eq!(p.grid((24, 300)), (20, 300));
    p.remove(2);
    assert_eq!(p.grid((24, 80)), (20, RESTING_COLS));
    p.remove(1);
    assert_eq!(p.grid((24, 80)), (24, 80));
}
