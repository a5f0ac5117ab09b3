use reforger_stats::kd_ratio_hundredths;
use reforger_stats::parse_kill_line;
use reforger_stats::KillEvent;
use reforger_stats::PlayerConnection;
use reforger_stats::StatsRepository;

fn kill(killer: &str, victim: &str, weapon: Option<&str>, distance: Option<u64>, tk: bool) -> KillEvent {
    KillEvent {
        killer_name: killer.to_string(),
        victim_name: victim.to_string(),
        weapon: weapon.map(|w| w.to_string()),
        distance,
        is_team_kill: tk,
        killer_faction: None,
        victim_faction: None,
    }
}

fn connection(identity: &str, ip: &str, rid: &str, user: &str, guid: &str) -> PlayerConnection {
    PlayerConnection {
        identity: identity.to_string(),
        ip_address: ip.to_string(),
        reforger_id: rid.to_string(),
        username: user.to_string(),
        battleye_guid: guid.to_string(),
    }
}

#[test]
fn n_distinct_kills_give_total_kills_n() {
    let mut repo = StatsRepository::new();
    repo.record_kill(&kill("Alice", "Bob", Some("M4"), Some(100_000), false), 1).unwrap();
    repo.record_kill(&kill("Alice", "Carol", Some("M4"), Some(200_000), false), 2).unwrap();
    repo.record_kill(&kill("Alice", "Bob", None, None, false), 3).unwrap();
    let alice = repo.resolve_player(&"Alice".to_string()).unwrap();
    let stat = repo.player_stat(alice).unwrap();
    assert_eq!(stat.total_kills, 3);
    assert_eq!(stat.total_deaths, 0);
}

#[test]
fn recording_the_same_event_twice_double_counts() {
    // by design: each log line is one real kill
    let mut repo = StatsRepository::new();
    let ev = kill("Alice", "Bob", Some("M4"), Some(100_000), false);
    repo.record_kill(&ev, 1).unwrap();
    repo.record_kill(&ev, 1).unwrap();
    let alice = repo.resolve_player(&"Alice".to_string()).unwrap();
    assert_eq!(repo.player_stat(alice).unwrap().total_kills, 2);
}

#[test]
fn kd_ratio_follows_the_counters() {
    let mut repo = StatsRepository::new();
    // three kills for Alice, one death (killed by Bob)
    repo.record_kill(&kill("Alice", "Bob", None, None, false), 1).unwrap();
    repo.record_kill(&kill("Alice", "Bob", None, None, false), 2).unwrap();
    repo.record_kill(&kill("Alice", "Carol", None, None, false), 3).unwrap();
    repo.record_kill(&kill("Bob", "Alice", None, None, false), 4).unwrap();
    let alice = repo.resolve_player(&"Alice".to_string()).unwrap();
    let stat = repo.player_stat(alice).unwrap();
    assert_eq!(stat.total_kills, 3);
    assert_eq!(stat.total_deaths, 1);
    // 3 kills / 1 death = 3.0, stored in hundredths
    assert_eq!(stat.kd_ratio_hundredths, 300);
    // Carol: 0 kills, 1 death => 0.0
    let carol = repo.resolve_player(&"Carol".to_string()).unwrap();
    assert_eq!(repo.player_stat(carol).unwrap().kd_ratio_hundredths, 0);
}

#[test]
fn kd_ratio_with_no_deaths_is_the_kill_count() {
    assert_eq!(kd_ratio_hundredths(3, 0), 300);
    assert_eq!(kd_ratio_hundredths(3, 1), 300);
    assert_eq!(kd_ratio_hundredths(0, 2), 0);
    assert_eq!(kd_ratio_hundredths(7, 2), 350);
    assert_eq!(kd_ratio_hundredths(1, 3), 33);
}

#[test]
fn weapon_stat_longest_and_total_distance() {
    // distances 120.5, 80.0, 300.25 for the same player and weapon
    let mut repo = StatsRepository::new();
    repo.record_kill(&kill("Alice", "Bob", Some("SVD"), Some(1_205_000), false), 1).unwrap();
    repo.record_kill(&kill("Alice", "Bob", Some("SVD"), Some(800_000), false), 2).unwrap();
    repo.record_kill(&kill("Alice", "Bob", Some("SVD"), Some(3_002_500), false), 3).unwrap();
    let alice = repo.resolve_player(&"Alice".to_string()).unwrap();
    let ws = repo.weapon_stat(alice, &"SVD".to_string()).unwrap();
    assert_eq!(ws.total_kills, 3);
    assert_eq!(ws.longest_kill, 3_002_500);
    assert_eq!(ws.total_distance, 5_007_500);
    assert_eq!(ws.last_kill, 3);
}

#[test]
fn team_kills_are_counted_separately() {
    let mut repo = StatsRepository::new();
    repo.record_kill(&kill("Alice", "Bob", Some("M4"), None, true), 1).unwrap();
    repo.record_kill(&kill("Alice", "Bob", Some("M4"), None, false), 2).unwrap();
    let alice = repo.resolve_player(&"Alice".to_string()).unwrap();
    let stat = repo.player_stat(alice).unwrap();
    assert_eq!(stat.total_kills, 2);
    assert_eq!(stat.total_team_kills, 1);
    let ws = repo.weapon_stat(alice, &"M4".to_string()).unwrap();
    assert_eq!(ws.total_team_kills, 1);
}

#[test]
fn pair_stats_count_killer_victim_pairs() {
    let mut repo = StatsRepository::new();
    repo.record_kill(&kill("Alice", "Bob", None, None, false), 1).unwrap();
    repo.record_kill(&kill("Alice", "Bob", None, None, false), 2).unwrap();
    repo.record_kill(&kill("Bob", "Alice", None, None, false), 3).unwrap();
    let alice = repo.resolve_player(&"Alice".to_string()).unwrap();
    let bob = repo.resolve_player(&"Bob".to_string()).unwrap();
    assert_eq!(repo.pair_stat(alice, bob).unwrap().total_kills, 2);
    assert_eq!(repo.pair_stat(bob, alice).unwrap().total_kills, 1);
}

#[test]
fn first_sighting_creates_players_with_zeroed_stats() {
    let mut repo = StatsRepository::new();
    assert_eq!(repo.player_count(), 0);
    repo.record_kill(&kill("Alice", "Bob", None, None, false), 1).unwrap();
    assert_eq!(repo.player_count(), 2);
    let bob = repo.resolve_player(&"Bob".to_string()).unwrap();
    let stat = repo.player_stat(bob).unwrap();
    assert_eq!(stat.total_kills, 0);
    assert_eq!(stat.total_deaths, 1);
}

#[test]
fn self_kill_touches_one_row_twice() {
    let mut repo = StatsRepository::new();
    repo.record_kill(&kill("Alice", "Alice", None, None, true), 1).unwrap();
    let alice = repo.resolve_player(&"Alice".to_string()).unwrap();
    let stat = repo.player_stat(alice).unwrap();
    assert_eq!(stat.total_kills, 1);
    assert_eq!(stat.total_deaths, 1);
    assert_eq!(stat.kd_ratio_hundredths, 100);
    assert_eq!(repo.player_count(), 1);
}

#[test]
fn connection_upserts_by_player_and_ip() {
    let mut repo = StatsRepository::new();
    let ev = connection("abc", "10.0.0.5", "rid-1", "Steve", "deadbeef");
    repo.record_connection(&ev, 100);
    assert_eq!(repo.player_count(), 1);
    let steve = repo.resolve_player(&"Steve".to_string()).unwrap();
    let rec = repo.connection_record(steve, &"10.0.0.5".to_string()).unwrap();
    assert_eq!(rec.connected_at, 100);
    assert_eq!(rec.username, "Steve");
    // the same player from the same address only refreshes the row
    repo.record_connection(&connection("abc", "10.0.0.5", "rid-1", "Steve2", "deadbeef"), 200);
    assert_eq!(repo.player_count(), 1);
    let rec2 = repo.connection_record(steve, &"10.0.0.5".to_string()).unwrap();
    assert_eq!(rec2.connected_at, 200);
    assert_eq!(rec2.username, "Steve2");
    // a new address adds a second record
    repo.record_connection(&connection("abc", "10.0.0.9", "rid-1", "Steve2", "deadbeef"), 300);
    assert!(repo.connection_record(steve, &"10.0.0.9".to_string()).is_some());
}

#[test]
fn connection_refreshes_guid_and_last_seen() {
    let mut repo = StatsRepository::new();
    repo.record_connection(&connection("abc", "10.0.0.5", "rid-7", "Hana", "0000aaaa"), 5);
    repo.record_connection(&connection("abc", "10.0.0.5", "rid-7", "Hana", "1111bbbb"), 9);
    let row = repo.player_by_identity(&"rid-7".to_string()).unwrap();
    assert_eq!(row.battleye_guid.as_deref(), Some("1111bbbb"));
    assert_eq!(row.first_seen, 5);
    assert_eq!(row.last_seen, 9);
}

#[test]
fn taken_identity_fails_creation_and_writes_nothing() {
    let mut repo = StatsRepository::new();
    repo.record_connection(&connection("abc", "10.0.0.5", "rid-used", "Steve", "deadbeef"), 1);
    let before = repo.player_count();
    let r = repo.get_or_create_player(&"Newcomer".to_string(), &"rid-used".to_string(), 2);
    assert!(r.is_err());
    assert_eq!(repo.player_count(), before);
    // an existing username resolves regardless of the candidate identity
    let ok = repo.get_or_create_player(&"Steve".to_string(), &"rid-used".to_string(), 3);
    assert!(ok.is_ok());
}

#[test]
fn parsed_line_flows_into_the_aggregates() {
    let mut repo = StatsRepository::new();
    let line = "PLAYER_KILLED: killerName='Alice', victimName='Bob', weaponName='SVD', killDistance=300.25, isTeamKill=false";
    let ev = parse_kill_line(line).unwrap();
    repo.record_kill(&ev, 42).unwrap();
    let alice = repo.resolve_player(&"Alice".to_string()).unwrap();
    let ws = repo.weapon_stat(alice, &"SVD".to_string()).unwrap();
    assert_eq!(ws.longest_kill, 3_002_500);
    assert_eq!(repo.kill_count(), 1);
}

#[test]
fn check_env_reports_a_missing_path() {
    let err = reforger_stats::check_env("/no/such/path/console.log").unwrap_err();
    assert_eq!(err, "The path /no/such/path/console.log does not exist.");
    assert!(reforger_stats::check_env("/").is_ok());
}

#[test]
fn created_players_get_fresh_hyphenated_identities() {
    let mut repo = StatsRepository::new();
    repo.record_kill(&kill("Alice", "Bob", None, None, false), 1).unwrap();
    let alice = repo.resolve_player(&"Alice".to_string()).unwrap();
    let bob = repo.resolve_player(&"Bob".to_string()).unwrap();
    let rid_a = repo.player_row(alice).unwrap().reforger_id.clone();
    let rid_b = repo.player_row(bob).unwrap().reforger_id.clone();
    assert_eq!(rid_a.len(), 36);
    assert_eq!(rid_b.len(), 36);
    // the call succeeded, so the two fresh identities did not collide
    assert_ne!(rid_a, rid_b);
}
