use reforger_stats::collect_kill_events;
use reforger_stats::kill_parser::parse_kill_line;
use reforger_stats::normalize_faction;

#[test]
fn parses_full_kill_line() {
    let line = "10:22:33 SCRIPT: PLAYER_KILLED: killerName='Alice', victimName='Bob', weaponName='M4A1', killDistance=120.5, isTeamKill=false, killerFaction=#WCS-Faction_NATO, victimFaction=#WCS-Faction_RU";
    let ev = parse_kill_line(line).expect("kill line should parse");
    assert_eq!(ev.killer_name, "Alice");
    assert_eq!(ev.victim_name, "Bob");
    assert_eq!(ev.weapon.as_deref(), Some("M4A1"));
    assert_eq!(ev.distance, Some(1_205_000));
    assert!(!ev.is_team_kill);
    assert_eq!(ev.killer_faction.as_deref(), Some("NATO"));
    assert_eq!(ev.victim_faction.as_deref(), Some("RU"));
}

#[test]
fn missing_killer_name_yields_no_event() {
    let line = "PLAYER_KILLED: victimName='Bob', weaponName='M4A1'";
    assert!(parse_kill_line(line).is_none());
}

#[test]
fn missing_victim_name_yields_no_event() {
    let line = "PLAYER_KILLED: killerName='Alice'";
    assert!(parse_kill_line(line).is_none());
}

#[test]
fn line_without_marker_yields_no_event() {
    let line = "10:22:33 Bob connected from somewhere";
    assert!(parse_kill_line(line).is_none());
}

#[test]
fn optional_keys_may_be_absent() {
    let ev = parse_kill_line("PLAYER_KILLED: killerName=Alice, victimName=Bob").unwrap();
    assert_eq!(ev.killer_name, "Alice");
    assert_eq!(ev.victim_name, "Bob");
    assert!(ev.weapon.is_none());
    assert!(ev.distance.is_none());
    assert!(!ev.is_team_kill);
    assert!(ev.killer_faction.is_none());
    assert!(ev.victim_faction.is_none());
}

#[test]
fn key_order_does_not_matter() {
    let a = parse_kill_line("PLAYER_KILLED: killerName=Alice, victimName=Bob, killDistance=80").unwrap();
    let b = parse_kill_line("PLAYER_KILLED: killDistance=80, victimName=Bob, killerName=Alice").unwrap();
    assert_eq!(a.killer_name, b.killer_name);
    assert_eq!(a.victim_name, b.victim_name);
    assert_eq!(a.distance, b.distance);
}

#[test]
fn last_occurrence_of_a_key_wins() {
    let ev = parse_kill_line("PLAYER_KILLED: killerName=Alice, victimName=Bob, killerName=Carol").unwrap();
    assert_eq!(ev.killer_name, "Carol");
}

#[test]
fn unknown_keys_are_ignored() {
    let ev = parse_kill_line("PLAYER_KILLED: killerName=Alice, victimName=Bob, shoeSize=44").unwrap();
    assert_eq!(ev.killer_name, "Alice");
}

#[test]
fn unparsable_distance_is_dropped() {
    let ev = parse_kill_line("PLAYER_KILLED: killerName=Alice, victimName=Bob, killDistance=close").unwrap();
    assert!(ev.distance.is_none());
}

#[test]
fn team_kill_value_variants() {
    let t1 = parse_kill_line("PLAYER_KILLED: killerName=A, victimName=B, isTeamKill=true").unwrap();
    assert!(t1.is_team_kill);
    let t2 = parse_kill_line("PLAYER_KILLED: killerName=A, victimName=B, isTeamKill=TRUE").unwrap();
    assert!(t2.is_team_kill);
    let t3 = parse_kill_line("PLAYER_KILLED: killerName=A, victimName=B, isTeamKill=1").unwrap();
    assert!(t3.is_team_kill);
    let f1 = parse_kill_line("PLAYER_KILLED: killerName=A, victimName=B, isTeamKill=false").unwrap();
    assert!(!f1.is_team_kill);
    let f2 = parse_kill_line("PLAYER_KILLED: killerName=A, victimName=B, isTeamKill=0").unwrap();
    assert!(!f2.is_team_kill);
}

#[test]
fn quotes_are_stripped_from_values() {
    let ev = parse_kill_line("PLAYER_KILLED: killerName='Alice', victimName=Bob, weaponName='AK 74'").unwrap();
    assert_eq!(ev.killer_name, "Alice");
    assert_eq!(ev.weapon.as_deref(), Some("AK 74"));
}

#[test]
fn faction_normalization_table() {
    assert_eq!(normalize_faction("#WCS-Faction_NATO"), "NATO");
    assert_eq!(normalize_faction("#WCS-Faction_RU"), "RU");
    assert_eq!(normalize_faction("#WCS-Faction_US"), "#WCS-Faction_US");
    assert_eq!(normalize_faction("CIV"), "CIV");
    assert_eq!(normalize_faction(""), "");
}

#[test]
fn batch_scan_keeps_only_kill_lines_in_order() {
    let lines: Vec<String> = vec![
        "noise".to_string(),
        "PLAYER_KILLED: killerName=Alice, victimName=Bob".to_string(),
        "PLAYER_KILLED: victimName=Carol".to_string(),
        "PLAYER_KILLED: killerName=Carol, victimName=Alice".to_string(),
    ];
    let events = collect_kill_events(&lines);
    assert_eq!(events.len(), 2);
    assert_eq!(events[0].killer_name, "Alice");
    assert_eq!(events[1].killer_name, "Carol");
}
