use reforger_stats::Correlator;

fn batch(lines: &[&str]) -> Vec<String> {
    lines.iter().map(|s| s.to_string()).collect()
}

#[test]
fn full_sequence_yields_one_event() {
    let mut c = Correlator::new();
    let lines = batch(&[
        "12:00:01 authenticating player identity=abc123 from address=10.0.0.5 port=2302",
        "12:00:02 Authenticated player identityId=11111111-1111-1111-1111-111111111111 name=Steve",
        "12:00:03 BE GUID: deadbeef",
    ]);
    let out = c.scan(&lines);
    assert_eq!(out.len(), 1);
    assert_eq!(out[0].identity, "abc123");
    assert_eq!(out[0].ip_address, "10.0.0.5");
    assert_eq!(out[0].reforger_id, "11111111-1111-1111-1111-111111111111");
    assert_eq!(out[0].username, "Steve");
    assert_eq!(out[0].battleye_guid, "deadbeef");
}

#[test]
fn lone_guid_line_yields_nothing() {
    let mut c = Correlator::new();
    let out = c.scan(&batch(&["BE GUID: deadbeef"]));
    assert_eq!(out.len(), 0);
}

#[test]
fn partial_match_completes_in_a_later_batch() {
    let mut c = Correlator::new();
    let first = c.scan(&batch(&[
        "authenticating identity=zz9 address=192.168.1.2",
        "Authenticated player identityId=22222222-2222-2222-2222-222222222222 name=Dana",
    ]));
    assert_eq!(first.len(), 0);
    let second = c.scan(&batch(&["BE GUID: cafef00d"]));
    assert_eq!(second.len(), 1);
    assert_eq!(second[0].username, "Dana");
    assert_eq!(second[0].battleye_guid, "cafef00d");
}

#[test]
fn incomplete_slots_survive_a_stray_guid() {
    let mut c = Correlator::new();
    let none_yet = c.scan(&batch(&[
        "authenticating identity=abc address=10.1.1.1",
        "BE GUID: 1234abcd",
    ]));
    assert_eq!(none_yet.len(), 0);
    let done = c.scan(&batch(&[
        "Authenticated player identityId=3333-a3 name=Eve",
        "BE GUID: 1234abcd",
    ]));
    assert_eq!(done.len(), 1);
    assert_eq!(done[0].identity, "abc");
    assert_eq!(done[0].ip_address, "10.1.1.1");
    assert_eq!(done[0].username, "Eve");
}

#[test]
fn slots_clear_after_emission() {
    let mut c = Correlator::new();
    let lines = batch(&[
        "authenticating identity=abc address=10.1.1.1",
        "Authenticated player identityId=aaaa name=Fred",
        "BE GUID: feed1234",
        "BE GUID: feed5678",
    ]);
    let out = c.scan(&lines);
    assert_eq!(out.len(), 1);
    assert_eq!(out[0].battleye_guid, "feed1234");
}

#[test]
fn marker_without_pattern_changes_nothing() {
    let mut c = Correlator::new();
    let out = c.scan(&batch(&[
        "authenticating but no identity fields here",
        "Authenticated player identityId=bbbb name=Gina",
        "BE GUID: 0badf00d",
    ]));
    assert_eq!(out.len(), 0);
}
