//! The stats repository: an in-memory model of the persisted tables and the
//! two transactional entry points that keep them consistent.
//!
//! Rows live in plain vectors; every mutation goes through
//! `record_connection` or the kill-recording entry points, each of which is
//! all-or-nothing and preserves the repository invariant: per-player,
//! per-weapon and per-pair counters always equal the matching counts over
//! the immutable kill log, cumulative distance equals the matching sum,
//! longest kills equal the matching maxima, and the stored kill/death ratio
//! is always the one recomputed from the counters.  Distances are in
//! ten-thousandths of a meter; times are whatever clock the caller uses.

use crate::correlator::ConnectionModel;
use crate::correlator::PlayerConnection;
use vstd::prelude::*;

verus! {

/// The kill/death ratio, in hundredths: `kills` when there are no deaths,
/// otherwise `kills / deaths`, truncated to two decimal places.
pub open spec fn kd_ratio_spec(kills: u64, deaths: u64) -> int {
    if deaths == 0 {
        kills * 100
    } else {
        (kills * 100) / (deaths as int)
    }
}

/// Recomputes the kill/death ratio from the two counters, in hundredths.
pub fn kd_ratio_hundredths(kills: u64, deaths: u64) -> (r: u128)
    ensures
        r == kd_ratio_spec(kills, deaths),
{
    if deaths == 0 {
        kills as u128 * 100
    } else {
        (kills as u128 * 100) / (deaths as u128)
    }
}

// ---------------------------------------------------------------------------
// Rows and their mathematical shadows.
// ---------------------------------------------------------------------------
/// One player: the identity anchor.
pub struct PlayerRow {
    pub player_id: u64,
    pub reforger_id: String,
    pub battleye_guid: Option<String>,
    pub first_seen: u64,
    pub last_seen: u64,
}

pub ghost struct PlayerData {
    pub player_id: u64,
    pub reforger_id: Seq<char>,
    pub battleye_guid: Option<Seq<char>>,
    pub first_seen: u64,
    pub last_seen: u64,
}

impl View for PlayerRow {
    type V = PlayerData;

    open spec fn view(&self) -> PlayerData {
        PlayerData {
            player_id: self.player_id,
            reforger_id: self.reforger_id@,
            battleye_guid: crate::text::opt_view(self.battleye_guid),
            first_seen: self.first_seen,
            last_seen: self.last_seen,
        }
    }
}

/// One (player, username) pairing.
pub struct NameRow {
    pub player_id: u64,
    pub username: String,
    pub first_used: u64,
    pub last_used: u64,
}

pub ghost struct NameData {
    pub player_id: u64,
    pub username: Seq<char>,
    pub first_used: u64,
    pub last_used: u64,
}

impl View for NameRow {
    type V = NameData;

    open spec fn view(&self) -> NameData {
        NameData {
            player_id: self.player_id,
            username: self.username@,
            first_used: self.first_used,
            last_used: self.last_used,
        }
    }
}

/// One (player, ip) connection record.
pub struct ConnectionRow {
    pub player_id: u64,
    pub ip_address: String,
    pub username: String,
    pub connected_at: u64,
}

pub ghost struct ConnectionRowData {
    pub player_id: u64,
    pub ip_address: Seq<char>,
    pub username: Seq<char>,
    pub connected_at: u64,
}

impl View for ConnectionRow {
    type V = ConnectionRowData;

    open spec fn view(&self) -> ConnectionRowData {
        ConnectionRowData {
            player_id: self.player_id,
            ip_address: self.ip_address@,
            username: self.username@,
            connected_at: self.connected_at,
        }
    }
}

/// One immutable kill record.  Absent weapon and factions are stored as the
/// empty string, as the store has it; an absent distance stays absent.
pub struct KillRow {
    pub killer_id: u64,
    pub victim_id: u64,
    pub weapon: String,
    pub distance: Option<u64>,
    pub is_team_kill: bool,
    pub killer_faction: String,
    pub victim_faction: String,
    pub killed_at: u64,
}

pub ghost struct KillData {
    pub killer_id: u64,
    pub victim_id: u64,
    pub weapon: Seq<char>,
    pub distance: Option<u64>,
    pub is_team_kill: bool,
    pub killer_faction: Seq<char>,
    pub victim_faction: Seq<char>,
    pub killed_at: u64,
}

impl View for KillRow {
    type V = KillData;

    open spec fn view(&self) -> KillData {
        KillData {
            killer_id: self.killer_id,
            victim_id: self.victim_id,
            weapon: self.weapon@,
            distance: self.distance,
            is_team_kill: self.is_team_kill,
            killer_faction: self.killer_faction@,
            victim_faction: self.victim_faction@,
            killed_at: self.killed_at,
        }
    }
}

/// The per-(player, weapon) aggregate.
pub struct WeaponStatRow {
    pub player_id: u64,
    pub weapon: String,
    pub total_kills: u64,
    pub total_team_kills: u64,
    pub total_distance: u128,
    pub longest_kill: u64,
    pub last_kill: u64,
}

pub ghost struct WeaponStatData {
    pub player_id: u64,
    pub weapon: Seq<char>,
    pub total_kills: u64,
    pub total_team_kills: u64,
    pub total_distance: u128,
    pub longest_kill: u64,
    pub last_kill: u64,
}

impl View for WeaponStatRow {
    type V = WeaponStatData;

    open spec fn view(&self) -> WeaponStatData {
        WeaponStatData {
            player_id: self.player_id,
            weapon: self.weapon@,
            total_kills: self.total_kills,
            total_team_kills: self.total_team_kills,
            total_distance: self.total_distance,
            longest_kill: self.longest_kill,
            last_kill: self.last_kill,
        }
    }
}

/// The per-(killer, victim) aggregate.
pub struct PairStatRow {
    pub killer_id: u64,
    pub victim_id: u64,
    pub total_kills: u64,
    pub last_kill: u64,
}

pub ghost struct PairStatData {
    pub killer_id: u64,
    pub victim_id: u64,
    pub total_kills: u64,
    pub last_kill: u64,
}

impl View for PairStatRow {
    type V = PairStatData;

    open spec fn view(&self) -> PairStatData {
        PairStatData {
            killer_id: self.killer_id,
            victim_id: self.victim_id,
            total_kills: self.total_kills,
            last_kill: self.last_kill,
        }
    }
}

/// The per-player aggregate.
pub struct PlayerStatRow {
    pub player_id: u64,
    pub total_kills: u64,
    pub total_deaths: u64,
    pub total_team_kills: u64,
    pub longest_kill: u64,
    pub kd_ratio_hundredths: u128,
}

pub ghost struct PlayerStatData {
    pub player_id: u64,
    pub total_kills: u64,
    pub total_deaths: u64,
    pub total_team_kills: u64,
    pub longest_kill: u64,
    pub kd_ratio_hundredths: u128,
}

impl View for PlayerStatRow {
    type V = PlayerStatData;

    open spec fn view(&self) -> PlayerStatData {
        PlayerStatData {
            player_id: self.player_id,
            total_kills: self.total_kills,
            total_deaths: self.total_deaths,
            total_team_kills: self.total_team_kills,
            longest_kill: self.longest_kill,
            kd_ratio_hundredths: self.kd_ratio_hundredths,
        }
    }
}

/// The whole repository, as mathematics.
#[verifier::ext_equal]
pub ghost struct RepoModel {
    pub players: Seq<PlayerData>,
    pub names: Seq<NameData>,
    pub connections: Seq<ConnectionRowData>,
    pub kills: Seq<KillData>,
    pub weapon_stats: Seq<WeaponStatData>,
    pub pair_stats: Seq<PairStatData>,
    pub player_stats: Seq<PlayerStatData>,
    pub next_player_id: u64,
}

// ---------------------------------------------------------------------------
// Searching, counting, summing and maximizing over row sequences.
// ---------------------------------------------------------------------------
/// The first index at or after `i` whose element satisfies `p`.
pub open spec fn first_match<T>(s: Seq<T>, p: spec_fn(T) -> bool, i: int) -> Option<int>
    decreases s.len() - i + 1,
{
    if i < 0 || i >= s.len() {
        None
    } else if p(s[i]) {
        Some(i)
    } else {
        first_match(s, p, i + 1)
    }
}

pub proof fn lemma_first_match_some<T>(s: Seq<T>, p: spec_fn(T) -> bool, i: int)
    requires
        first_match(s, p, i) is Some,
    ensures
        ({
            let r = first_match(s, p, i)->0;
            i <= r < s.len() && p(s[r]) && forall|k: int| i <= k < r ==> !p(s[k])
        }),
    decreases s.len() - i + 1,
{
    if i < 0 || i >= s.len() {
    } else if p(s[i]) {
    } else {
        lemma_first_match_some(s, p, i + 1);
    }
}

pub proof fn lemma_first_match_at<T>(s: Seq<T>, p: spec_fn(T) -> bool, i: int, r: int)
    requires
        0 <= i <= r < s.len(),
        p(s[r]),
        forall|k: int| i <= k < r ==> !p(s[k]),
    ensures
        first_match(s, p, i) == Some(r),
    decreases r - i,
{
    if i < r {
        lemma_first_match_at(s, p, i + 1, r);
    }
}

pub proof fn lemma_first_match_none<T>(s: Seq<T>, p: spec_fn(T) -> bool, i: int)
    requires
        0 <= i,
        forall|k: int| i <= k < s.len() ==> !p(s[k]),
    ensures
        first_match(s, p, i) is None,
    decreases s.len() - i + 1,
{
    if i < s.len() {
        lemma_first_match_none(s, p, i + 1);
    }
}

pub proof fn lemma_first_match_absent<T>(s: Seq<T>, p: spec_fn(T) -> bool, i: int)
    requires
        0 <= i,
        first_match(s, p, i) is None,
    ensures
        forall|k: int| i <= k < s.len() ==> !p(s[k]),
    decreases s.len() - i + 1,
{
    if i < s.len() {
        lemma_first_match_absent(s, p, i + 1);
    }
}

pub proof fn lemma_first_match_exists<T>(s: Seq<T>, p: spec_fn(T) -> bool)
    requires
        exists|i: int| 0 <= i < s.len() && p(s[i]),
    ensures
        first_match(s, p, 0) is Some,
{
    if first_match(s, p, 0) is None {
        lemma_first_match_absent(s, p, 0);
    }
}

/// How many elements satisfy `p`.
pub open spec fn count_matching<T>(s: Seq<T>, p: spec_fn(T) -> bool) -> int
    decreases s.len(),
{
    if s.len() == 0 {
        0
    } else {
        count_matching(s.drop_last(), p) + (if p(s.last()) {
            1int
        } else {
            0int
        })
    }
}

pub proof fn lemma_count_push<T>(s: Seq<T>, p: spec_fn(T) -> bool, x: T)
    ensures
        count_matching(s.push(x), p) == count_matching(s, p) + (if p(x) {
            1int
        } else {
            0int
        }),
{
    assert(s.push(x).drop_last() =~= s);
    assert(s.push(x).last() == x);
}

pub proof fn lemma_count_bounds<T>(s: Seq<T>, p: spec_fn(T) -> bool)
    ensures
        0 <= count_matching(s, p) <= s.len(),
    decreases s.len(),
{
    if s.len() > 0 {
        lemma_count_bounds(s.drop_last(), p);
    }
}

pub proof fn lemma_count_zero<T>(s: Seq<T>, p: spec_fn(T) -> bool)
    requires
        forall|i: int| 0 <= i < s.len() ==> !p(s[i]),
    ensures
        count_matching(s, p) == 0,
    decreases s.len(),
{
    if s.len() > 0 {
        assert(forall|i: int| 0 <= i < s.drop_last().len() ==> s.drop_last()[i] == s[i]);
        lemma_count_zero(s.drop_last(), p);
    }
}

/// The sum of `f` over every element.
pub open spec fn sum_over<T>(s: Seq<T>, f: spec_fn(T) -> int) -> int
    decreases s.len(),
{
    if s.len() == 0 {
        0
    } else {
        sum_over(s.drop_last(), f) + f(s.last())
    }
}

pub proof fn lemma_sum_push<T>(s: Seq<T>, f: spec_fn(T) -> int, x: T)
    ensures
        sum_over(s.push(x), f) == sum_over(s, f) + f(x),
{
    assert(s.push(x).drop_last() =~= s);
    assert(s.push(x).last() == x);
}

pub proof fn lemma_sum_zero<T>(s: Seq<T>, f: spec_fn(T) -> int)
    requires
        forall|i: int| 0 <= i < s.len() ==> f(s[i]) == 0,
    ensures
        sum_over(s, f) == 0,
    decreases s.len(),
{
    if s.len() > 0 {
        assert(forall|i: int| 0 <= i < s.drop_last().len() ==> s.drop_last()[i] == s[i]);
        lemma_sum_zero(s.drop_last(), f);
    }
}

pub proof fn lemma_sum_bounded<T>(s: Seq<T>, f: spec_fn(T) -> int, bound: int)
    requires
        bound >= 0,
        forall|i: int| 0 <= i < s.len() ==> 0 <= #[trigger] f(s[i]) <= bound,
    ensures
        0 <= sum_over(s, f) <= s.len() * bound,
    decreases s.len(),
{
    if s.len() > 0 {
        let t = s.drop_last();
        assert(forall|i: int| 0 <= i < t.len() ==> 0 <= #[trigger] f(t[i]) <= bound);
        lemma_sum_bounded(t, f, bound);
        assert(0 <= f(s.last()) <= bound);
        assert(s.len() * bound == t.len() * bound + bound) by (nonlinear_arith)
            requires
                s.len() == t.len() + 1,
        ;
    }
}

/// The largest `f`-value over the elements, or zero for none.
pub open spec fn max_over<T>(s: Seq<T>, f: spec_fn(T) -> int) -> int
    decreases s.len(),
{
    if s.len() == 0 {
        0
    } else {
        let m = max_over(s.drop_last(), f);
        if f(s.last()) > m {
            f(s.last())
        } else {
            m
        }
    }
}

pub proof fn lemma_max_push<T>(s: Seq<T>, f: spec_fn(T) -> int, x: T)
    ensures
        max_over(s.push(x), f) == if f(x) > max_over(s, f) {
            f(x)
        } else {
            max_over(s, f)
        },
{
    assert(s.push(x).drop_last() =~= s);
    assert(s.push(x).last() == x);
}

pub proof fn lemma_max_zero<T>(s: Seq<T>, f: spec_fn(T) -> int)
    requires
        forall|i: int| 0 <= i < s.len() ==> f(s[i]) == 0,
    ensures
        max_over(s, f) == 0,
    decreases s.len(),
{
    if s.len() > 0 {
        assert(forall|i: int| 0 <= i < s.drop_last().len() ==> s.drop_last()[i] == s[i]);
        lemma_max_zero(s.drop_last(), f);
    }
}

pub proof fn lemma_max_ge_each<T>(s: Seq<T>, f: spec_fn(T) -> int, i: int)
    requires
        0 <= i < s.len(),
    ensures
        max_over(s, f) >= f(s[i]),
    decreases s.len(),
{
    if i == s.len() - 1 {
    } else {
        assert(s.drop_last()[i] == s[i]);
        lemma_max_ge_each(s.drop_last(), f, i);
    }
}

pub proof fn lemma_max_nonneg<T>(s: Seq<T>, f: spec_fn(T) -> int)
    ensures
        max_over(s, f) >= 0,
    decreases s.len(),
{
    if s.len() > 0 {
        lemma_max_nonneg(s.drop_last(), f);
    }
}

// ---------------------------------------------------------------------------
// The predicates that the aggregates count by.
// ---------------------------------------------------------------------------
pub open spec fn rid_pred_of(rid: Seq<char>) -> spec_fn(PlayerData) -> bool {
    |p: PlayerData| p.reforger_id == rid
}

pub open spec fn player_id_pred_of(pid: u64) -> spec_fn(PlayerData) -> bool {
    |p: PlayerData| p.player_id == pid
}

pub open spec fn username_pred_of(u: Seq<char>) -> spec_fn(NameData) -> bool {
    |n: NameData| n.username == u
}

pub open spec fn name_key_pred_of(pid: u64, u: Seq<char>) -> spec_fn(NameData) -> bool {
    |n: NameData| n.player_id == pid && n.username == u
}

pub open spec fn conn_key_pred_of(pid: u64, ip: Seq<char>) -> spec_fn(ConnectionRowData) -> bool {
    |c: ConnectionRowData| c.player_id == pid && c.ip_address == ip
}

pub open spec fn weapon_key_pred_of(pid: u64, w: Seq<char>) -> spec_fn(WeaponStatData) -> bool {
    |r: WeaponStatData| r.player_id == pid && r.weapon == w
}

pub open spec fn pair_key_pred_of(killer: u64, victim: u64) -> spec_fn(PairStatData) -> bool {
    |r: PairStatData| r.killer_id == killer && r.victim_id == victim
}

pub open spec fn stat_key_pred_of(pid: u64) -> spec_fn(PlayerStatData) -> bool {
    |r: PlayerStatData| r.player_id == pid
}

pub open spec fn killer_pred_of(pid: u64) -> spec_fn(KillData) -> bool {
    |k: KillData| k.killer_id == pid
}

pub open spec fn victim_pred_of(pid: u64) -> spec_fn(KillData) -> bool {
    |k: KillData| k.victim_id == pid
}

pub open spec fn killer_tk_pred_of(pid: u64) -> spec_fn(KillData) -> bool {
    |k: KillData| k.killer_id == pid && k.is_team_kill
}

pub open spec fn killer_weapon_pred_of(pid: u64, w: Seq<char>) -> spec_fn(KillData) -> bool {
    |k: KillData| k.killer_id == pid && k.weapon == w
}

pub open spec fn killer_weapon_tk_pred_of(pid: u64, w: Seq<char>) -> spec_fn(KillData) -> bool {
    |k: KillData| k.killer_id == pid && k.weapon == w && k.is_team_kill
}

/// A kill's distance, zero when absent.
pub open spec fn dist_or_zero(k: KillData) -> int {
    match k.distance {
        Some(d) => d as int,
        None => 0,
    }
}

pub open spec fn killer_dist_of(pid: u64) -> spec_fn(KillData) -> int {
    |k: KillData| if k.killer_id == pid {
        dist_or_zero(k)
    } else {
        0
    }
}

pub open spec fn killer_weapon_dist_of(pid: u64, w: Seq<char>) -> spec_fn(KillData) -> int {
    |k: KillData| if k.killer_id == pid && k.weapon == w {
        dist_or_zero(k)
    } else {
        0
    }
}

// ---------------------------------------------------------------------------
// Lookups as specification values.
// ---------------------------------------------------------------------------
pub open spec fn find_rid(players: Seq<PlayerData>, rid: Seq<char>) -> Option<int> {
    first_match(players, rid_pred_of(rid), 0)
}

pub open spec fn rid_taken(players: Seq<PlayerData>, rid: Seq<char>) -> bool {
    find_rid(players, rid) is Some
}

pub open spec fn find_username(names: Seq<NameData>, u: Seq<char>) -> Option<int> {
    first_match(names, username_pred_of(u), 0)
}

/// The player a raw username resolves to: the first name row that carries
/// it.
pub open spec fn resolve_player_spec(names: Seq<NameData>, u: Seq<char>) -> Option<u64> {
    match find_username(names, u) {
        Some(i) => if 0 <= i < names.len() {
            Some(names[i].player_id)
        } else {
            None
        },
        None => None,
    }
}

pub open spec fn find_name_row(names: Seq<NameData>, pid: u64, u: Seq<char>) -> Option<int> {
    first_match(names, name_key_pred_of(pid, u), 0)
}

pub open spec fn find_conn_row(conns: Seq<ConnectionRowData>, pid: u64, ip: Seq<char>) -> Option<
    int,
> {
    first_match(conns, conn_key_pred_of(pid, ip), 0)
}

pub open spec fn find_weapon_row(ws: Seq<WeaponStatData>, pid: u64, w: Seq<char>) -> Option<int> {
    first_match(ws, weapon_key_pred_of(pid, w), 0)
}

pub open spec fn find_pair_row(ps: Seq<PairStatData>, killer: u64, victim: u64) -> Option<int> {
    first_match(ps, pair_key_pred_of(killer, victim), 0)
}

pub open spec fn find_stat_row(ss: Seq<PlayerStatData>, pid: u64) -> Option<int> {
    first_match(ss, stat_key_pred_of(pid), 0)
}

// ---------------------------------------------------------------------------
// The repository invariant.
// ---------------------------------------------------------------------------
/// Some player row carries this id.
pub open spec fn has_player(m: RepoModel, pid: u64) -> bool {
    exists|i: int| 0 <= i < m.players.len() && #[trigger] m.players[i].player_id == pid
}

pub open spec fn wf_players(m: RepoModel) -> bool {
    &&& m.next_player_id >= 1
    &&& forall|i: int|
        0 <= i < m.players.len() ==> 1 <= #[trigger] m.players[i].player_id < m.next_player_id
    &&& forall|i: int, j: int|
        #![trigger m.players[i], m.players[j]]
        0 <= i < j < m.players.len() ==> m.players[i].player_id != m.players[j].player_id
}

pub open spec fn wf_names(m: RepoModel) -> bool {
    &&& forall|i: int| 0 <= i < m.names.len() ==> has_player(m, #[trigger] m.names[i].player_id)
    &&& forall|i: int, j: int|
        #![trigger m.names[i], m.names[j]]
        0 <= i < j < m.names.len() ==> !(m.names[i].player_id == m.names[j].player_id
            && m.names[i].username == m.names[j].username)
}

pub open spec fn wf_connections(m: RepoModel) -> bool {
    &&& forall|i: int|
        0 <= i < m.connections.len() ==> has_player(m, #[trigger] m.connections[i].player_id)
    &&& forall|i: int, j: int|
        #![trigger m.connections[i], m.connections[j]]
        0 <= i < j < m.connections.len() ==> !(m.connections[i].player_id
            == m.connections[j].player_id && m.connections[i].ip_address
            == m.connections[j].ip_address)
}

pub open spec fn wf_kills(m: RepoModel) -> bool {
    forall|i: int|
        0 <= i < m.kills.len() ==> has_player(m, #[trigger] m.kills[i].killer_id) && has_player(
            m,
            m.kills[i].victim_id,
        )
}

pub open spec fn wf_weapon_stats(m: RepoModel) -> bool {
    &&& forall|i: int|
        0 <= i < m.weapon_stats.len() ==> has_player(m, #[trigger] m.weapon_stats[i].player_id)
    &&& forall|i: int, j: int|
        #![trigger m.weapon_stats[i], m.weapon_stats[j]]
        0 <= i < j < m.weapon_stats.len() ==> !(m.weapon_stats[i].player_id
            == m.weapon_stats[j].player_id && m.weapon_stats[i].weapon == m.weapon_stats[j].weapon)
    &&& forall|i: int|
        0 <= i < m.weapon_stats.len() ==> {
            let r = #[trigger] m.weapon_stats[i];
            &&& r.total_kills == count_matching(m.kills, killer_weapon_pred_of(r.player_id, r.weapon))
            &&& r.total_team_kills == count_matching(
                m.kills,
                killer_weapon_tk_pred_of(r.player_id, r.weapon),
            )
            &&& r.total_distance == sum_over(m.kills, killer_weapon_dist_of(r.player_id, r.weapon))
            &&& r.longest_kill == max_over(m.kills, killer_weapon_dist_of(r.player_id, r.weapon))
        }
    &&& forall|i: int|
        0 <= i < m.kills.len() ==> find_weapon_row(
            m.weapon_stats,
            (#[trigger] m.kills[i]).killer_id,
            m.kills[i].weapon,
        ) is Some
}

pub open spec fn wf_pair_stats(m: RepoModel) -> bool {
    &&& forall|i: int|
        0 <= i < m.pair_stats.len() ==> has_player(m, #[trigger] m.pair_stats[i].killer_id)
            && has_player(m, m.pair_stats[i].victim_id)
    &&& forall|i: int, j: int|
        #![trigger m.pair_stats[i], m.pair_stats[j]]
        0 <= i < j < m.pair_stats.len() ==> !(m.pair_stats[i].killer_id
            == m.pair_stats[j].killer_id && m.pair_stats[i].victim_id == m.pair_stats[j].victim_id)
    &&& forall|i: int|
        0 <= i < m.pair_stats.len() ==> (#[trigger] m.pair_stats[i]).total_kills == count_matching(
            m.kills,
            pair_pred_of_kill(m.pair_stats[i].killer_id, m.pair_stats[i].victim_id),
        )
    &&& forall|i: int|
        0 <= i < m.kills.len() ==> find_pair_row(
            m.pair_stats,
            (#[trigger] m.kills[i]).killer_id,
            m.kills[i].victim_id,
        ) is Some
}

pub open spec fn pair_pred_of_kill(killer: u64, victim: u64) -> spec_fn(KillData) -> bool {
    |k: KillData| k.killer_id == killer && k.victim_id == victim
}

pub open spec fn wf_player_stats(m: RepoModel) -> bool {
    &&& forall|i: int|
        0 <= i < m.player_stats.len() ==> has_player(m, #[trigger] m.player_stats[i].player_id)
    &&& forall|i: int, j: int|
        #![trigger m.player_stats[i], m.player_stats[j]]
        0 <= i < j < m.player_stats.len() ==> m.player_stats[i].player_id
            != m.player_stats[j].player_id
    &&& forall|i: int|
        0 <= i < m.players.len() ==> find_stat_row(
            m.player_stats,
            (#[trigger] m.players[i]).player_id,
        ) is Some
    &&& forall|i: int|
        0 <= i < m.player_stats.len() ==> {
            let r = #[trigger] m.player_stats[i];
            &&& r.total_kills == count_matching(m.kills, killer_pred_of(r.player_id))
            &&& r.total_deaths == count_matching(m.kills, victim_pred_of(r.player_id))
            &&& r.total_team_kills == count_matching(m.kills, killer_tk_pred_of(r.player_id))
            &&& r.longest_kill == max_over(m.kills, killer_dist_of(r.player_id))
            &&& r.kd_ratio_hundredths == kd_ratio_spec(r.total_kills, r.total_deaths)
        }
}

/// The repository invariant: every aggregate row is exactly the matching
/// count, sum or maximum over the immutable kill log, keys are unique,
/// every referenced player exists, and every player has a stats row.
pub open spec fn wf(m: RepoModel) -> bool {
    &&& wf_players(m)
    &&& wf_names(m)
    &&& wf_connections(m)
    &&& wf_kills(m)
    &&& wf_weapon_stats(m)
    &&& wf_pair_stats(m)
    &&& wf_player_stats(m)
}

/// The empty repository; ids start at one, as the store's counter does.
pub open spec fn empty_repo() -> RepoModel {
    RepoModel {
        players: Seq::empty(),
        names: Seq::empty(),
        connections: Seq::empty(),
        kills: Seq::empty(),
        weapon_stats: Seq::empty(),
        pair_stats: Seq::empty(),
        player_stats: Seq::empty(),
        next_player_id: 1,
    }
}

pub proof fn lemma_empty_repo_wf()
    ensures
        wf(empty_repo()),
{
}


// ---------------------------------------------------------------------------
// The transforms: what each entry point does to the model.
// ---------------------------------------------------------------------------
/// A zero-initialized per-player aggregate.
pub open spec fn zero_stat(pid: u64) -> PlayerStatData {
    PlayerStatData {
        player_id: pid,
        total_kills: 0,
        total_deaths: 0,
        total_team_kills: 0,
        longest_kill: 0,
        kd_ratio_hundredths: 0,
    }
}

/// Upserts the player keyed by external identity: refresh GUID and
/// last-seen when present, else create the player with the next id and a
/// zero-initialized stats row.  Yields the model and the player's id.
pub open spec fn upsert_player_spec(m: RepoModel, ev: ConnectionModel, now: u64) -> (RepoModel, u64) {
    match find_rid(m.players, ev.reforger_id) {
        Some(i) => if 0 <= i < m.players.len() {
            let prev = m.players[i];
            let row = PlayerData { battleye_guid: Some(ev.battleye_guid), last_seen: now, ..prev };
            (RepoModel { players: m.players.update(i, row), ..m }, prev.player_id)
        } else {
            (m, 0)
        },
        None => {
            let pid = m.next_player_id;
            let row = PlayerData {
                player_id: pid,
                reforger_id: ev.reforger_id,
                battleye_guid: Some(ev.battleye_guid),
                first_seen: now,
                last_seen: now,
            };
            (
                RepoModel {
                    players: m.players.push(row),
                    player_stats: m.player_stats.push(zero_stat(pid)),
                    next_player_id: (pid + 1) as u64,
                    ..m
                },
                pid,
            )
        },
    }
}

/// Upserts the (player, username) pairing: refresh last-used, or insert.
pub open spec fn upsert_name_spec(m: RepoModel, pid: u64, u: Seq<char>, now: u64) -> RepoModel {
    match find_name_row(m.names, pid, u) {
        Some(i) => if 0 <= i < m.names.len() {
            let row = NameData { last_used: now, ..m.names[i] };
            RepoModel { names: m.names.update(i, row), ..m }
        } else {
            m
        },
        None => RepoModel {
            names: m.names.push(
                NameData { player_id: pid, username: u, first_used: now, last_used: now },
            ),
            ..m
        },
    }
}

/// Upserts the (player, ip) connection record: refresh timestamp and
/// username, or insert.
pub open spec fn upsert_conn_spec(
    m: RepoModel,
    pid: u64,
    ip: Seq<char>,
    u: Seq<char>,
    now: u64,
) -> RepoModel {
    match find_conn_row(m.connections, pid, ip) {
        Some(i) => if 0 <= i < m.connections.len() {
            let row = ConnectionRowData { username: u, connected_at: now, ..m.connections[i] };
            RepoModel { connections: m.connections.update(i, row), ..m }
        } else {
            m
        },
        None => RepoModel {
            connections: m.connections.push(
                ConnectionRowData { player_id: pid, ip_address: ip, username: u, connected_at: now },
            ),
            ..m
        },
    }
}

/// The whole effect of recording one connection event.
pub open spec fn record_connection_spec(m: RepoModel, ev: ConnectionModel, now: u64) -> RepoModel {
    let up = upsert_player_spec(m, ev, now);
    let m1 = upsert_name_spec(up.0, up.1, ev.username, now);
    upsert_conn_spec(m1, up.1, ev.ip_address, ev.username, now)
}

// ---------------------------------------------------------------------------
// Facts the preservation proofs lean on.
// ---------------------------------------------------------------------------
pub proof fn lemma_first_match_push_from<T>(s: Seq<T>, p: spec_fn(T) -> bool, x: T, i: int)
    requires
        0 <= i <= s.len(),
    ensures
        first_match(s.push(x), p, i) == (match first_match(s, p, i) {
            Some(j) => Some(j),
            None => if p(x) {
                Some(s.len() as int)
            } else {
                None
            },
        }),
    decreases s.len() - i,
{
    if i < s.len() {
        assert(s.push(x)[i] == s[i]);
        lemma_first_match_push_from(s, p, x, i + 1);
    } else {
        assert(s.push(x)[i] == x);
        if !p(x) {
            assert(first_match(s.push(x), p, i + 1) is None);
        }
    }
}

/// Two models whose players carry the same ids agree on `has_player`.
proof fn lemma_same_ids_has_player(m: RepoModel, m2: RepoModel)
    requires
        m2.players.len() == m.players.len(),
        forall|i: int|
            0 <= i < m.players.len() ==> (#[trigger] m2.players[i]).player_id
                == m.players[i].player_id,
    ensures
        forall|pid: u64| #![trigger has_player(m2, pid)] has_player(m2, pid) == has_player(m, pid),
{
    assert forall|pid: u64| #![trigger has_player(m2, pid)] has_player(m2, pid) == has_player(
        m,
        pid,
    ) by {
        if has_player(m, pid) {
            let i = choose|i: int|
                0 <= i < m.players.len() && #[trigger] m.players[i].player_id == pid;
            assert(m2.players[i].player_id == pid);
        }
        if has_player(m2, pid) {
            let i = choose|i: int|
                0 <= i < m2.players.len() && #[trigger] m2.players[i].player_id == pid;
            assert(m.players[i].player_id == pid);
        }
    }
}

/// Pushing a player keeps every existing id present.
proof fn lemma_push_player_has_player(m: RepoModel, m2: RepoModel, row: PlayerData)
    requires
        m2.players == m.players.push(row),
    ensures
        forall|pid: u64|
            #![trigger has_player(m2, pid)]
            has_player(m, pid) ==> has_player(m2, pid),
        has_player(m2, row.player_id),
{
    assert forall|pid: u64| #![trigger has_player(m2, pid)] has_player(m, pid) implies has_player(
        m2,
        pid,
    ) by {
        if has_player(m, pid) {
            let i = choose|i: int|
                0 <= i < m.players.len() && #[trigger] m.players[i].player_id == pid;
            assert(m2.players[i].player_id == pid);
        }
    }
    assert(m2.players[m.players.len() as int].player_id == row.player_id);
}

/// An id below every player's ceiling is matched by no kill.
proof fn lemma_fresh_id_untouched(m: RepoModel, pid: u64)
    requires
        wf(m),
        pid >= m.next_player_id,
    ensures
        count_matching(m.kills, killer_pred_of(pid)) == 0,
        count_matching(m.kills, victim_pred_of(pid)) == 0,
        count_matching(m.kills, killer_tk_pred_of(pid)) == 0,
        max_over(m.kills, killer_dist_of(pid)) == 0,
{
    assert forall|i: int| 0 <= i < m.kills.len() implies !killer_pred_of(pid)(m.kills[i])
        && !victim_pred_of(pid)(m.kills[i]) && !killer_tk_pred_of(pid)(m.kills[i]) && killer_dist_of(
        pid,
    )(m.kills[i]) == 0 by {
        assert(has_player(m, m.kills[i].killer_id));
        assert(has_player(m, m.kills[i].victim_id));
        let a = choose|j: int|
            0 <= j < m.players.len() && #[trigger] m.players[j].player_id == m.kills[i].killer_id;
        let b = choose|j: int|
            0 <= j < m.players.len() && #[trigger] m.players[j].player_id == m.kills[i].victim_id;
        assert(m.players[a].player_id < m.next_player_id);
        assert(m.players[b].player_id < m.next_player_id);
    }
    lemma_count_zero(m.kills, killer_pred_of(pid));
    lemma_count_zero(m.kills, victim_pred_of(pid));
    lemma_count_zero(m.kills, killer_tk_pred_of(pid));
    lemma_max_zero(m.kills, killer_dist_of(pid));
}

/// The player upsert preserves the invariant and resolves to a present
/// player; every other table is untouched.
pub proof fn lemma_upsert_player_wf(m: RepoModel, ev: ConnectionModel, now: u64)
    requires
        wf(m),
        m.next_player_id < u64::MAX,
    ensures
        ({
            let up = upsert_player_spec(m, ev, now);
            &&& wf(up.0)
            &&& has_player(up.0, up.1)
            &&& up.0.names == m.names
            &&& up.0.connections == m.connections
            &&& up.0.kills == m.kills
            &&& up.0.weapon_stats == m.weapon_stats
            &&& up.0.pair_stats == m.pair_stats
            &&& up.0.next_player_id >= m.next_player_id
        }),
{
    let up = upsert_player_spec(m, ev, now);
    let m2 = up.0;
    match find_rid(m.players, ev.reforger_id) {
        Some(i) => {
            lemma_first_match_some(m.players, rid_pred_of(ev.reforger_id), 0);
            assert(forall|k: int|
                0 <= k < m.players.len() ==> (#[trigger] m2.players[k]).player_id
                    == m.players[k].player_id);
            lemma_same_ids_has_player(m, m2);
            assert(m2.players[i].player_id == m.players[i].player_id);
            assert(has_player(m, m.players[i].player_id));
        },
        None => {
            let pid = m.next_player_id;
            lemma_push_player_has_player(m, m2, m2.players.last());
            lemma_fresh_id_untouched(m, pid);
            // the fresh stats row is consistent and its key is new
            assert(forall|k: int|
                0 <= k < m.player_stats.len() ==> (#[trigger] m2.player_stats[k])
                    == m.player_stats[k]);
            assert forall|k: int| 0 <= k < m.player_stats.len() implies (
            #[trigger] m.player_stats[k]).player_id != pid by {
                assert(has_player(m, m.player_stats[k].player_id));
                let j = choose|j: int|
                    0 <= j < m.players.len() && #[trigger] m.players[j].player_id
                        == m.player_stats[k].player_id;
            }
            // completeness of the stats table for old and new players
            assert forall|k: int| 0 <= k < m2.players.len() implies find_stat_row(
                m2.player_stats,
                (#[trigger] m2.players[k]).player_id,
            ) is Some by {
                if k < m.players.len() {
                    lemma_first_match_push_from(
                        m.player_stats,
                        stat_key_pred_of(m.players[k].player_id),
                        zero_stat(pid),
                        0,
                    );
                } else {
                    lemma_first_match_none(m.player_stats, stat_key_pred_of(pid), 0);
                    lemma_first_match_push_from(
                        m.player_stats,
                        stat_key_pred_of(pid),
                        zero_stat(pid),
                        0,
                    );
                    assert(m2.player_stats[m.player_stats.len() as int].player_id == pid);
                }
            }
            assert(m2.player_stats.last() == zero_stat(pid));
            assert(zero_stat(pid).kd_ratio_hundredths == kd_ratio_spec(0, 0));
        },
    }
}

/// The name upsert preserves the invariant; only the names change.
pub proof fn lemma_upsert_name_wf(m: RepoModel, pid: u64, u: Seq<char>, now: u64)
    requires
        wf(m),
        has_player(m, pid),
    ensures
        ({
            let m2 = upsert_name_spec(m, pid, u, now);
            &&& wf(m2)
            &&& m2 == RepoModel { names: m2.names, ..m }
        }),
{
    let m2 = upsert_name_spec(m, pid, u, now);
    match find_name_row(m.names, pid, u) {
        Some(i) => {
            lemma_first_match_some(m.names, name_key_pred_of(pid, u), 0);
            assert(forall|k: int|
                0 <= k < m.names.len() ==> ((#[trigger] m2.names[k]).player_id
                    == m.names[k].player_id && m2.names[k].username == m.names[k].username));
        },
        None => {
            lemma_first_match_absent(m.names, name_key_pred_of(pid, u), 0);
            assert(forall|k: int|
                0 <= k < m.names.len() ==> (#[trigger] m2.names[k]) == m.names[k]);
            assert(m2.names.last().player_id == pid && m2.names.last().username == u);
        },
    }
}

/// The connection upsert preserves the invariant; only the connection
/// records change.
pub proof fn lemma_upsert_conn_wf(m: RepoModel, pid: u64, ip: Seq<char>, u: Seq<char>, now: u64)
    requires
        wf(m),
        has_player(m, pid),
    ensures
        ({
            let m2 = upsert_conn_spec(m, pid, ip, u, now);
            &&& wf(m2)
            &&& m2 == RepoModel { connections: m2.connections, ..m }
        }),
{
    let m2 = upsert_conn_spec(m, pid, ip, u, now);
    match find_conn_row(m.connections, pid, ip) {
        Some(i) => {
            lemma_first_match_some(m.connections, conn_key_pred_of(pid, ip), 0);
            assert(forall|k: int|
                0 <= k < m.connections.len() ==> ((#[trigger] m2.connections[k]).player_id
                    == m.connections[k].player_id && m2.connections[k].ip_address
                    == m.connections[k].ip_address));
        },
        None => {
            lemma_first_match_absent(m.connections, conn_key_pred_of(pid, ip), 0);
            assert(forall|k: int|
                0 <= k < m.connections.len() ==> (#[trigger] m2.connections[k])
                    == m.connections[k]);
            assert(m2.connections.last().player_id == pid && m2.connections.last().ip_address
                == ip);
        },
    }
}

/// Recording a connection preserves the invariant.
pub proof fn lemma_record_connection_wf(m: RepoModel, ev: ConnectionModel, now: u64)
    requires
        wf(m),
        m.next_player_id < u64::MAX,
    ensures
        wf(record_connection_spec(m, ev, now)),
{
    let up = upsert_player_spec(m, ev, now);
    lemma_upsert_player_wf(m, ev, now);
    let m1 = upsert_name_spec(up.0, up.1, ev.username, now);
    lemma_upsert_name_wf(up.0, up.1, ev.username, now);
    assert(has_player(m1, up.1)) by {
        assert(m1.players == up.0.players);
        if has_player(up.0, up.1) {
            let i = choose|i: int|
                0 <= i < up.0.players.len() && #[trigger] up.0.players[i].player_id == up.1;
            assert(m1.players[i].player_id == up.1);
        }
    }
    lemma_upsert_conn_wf(m1, up.1, ev.ip_address, ev.username, now);
}


// ---------------------------------------------------------------------------
// The repository itself.
// ---------------------------------------------------------------------------
/// The error of the kill-recording path: a freshly generated external
/// identity collided with one already stored, the one constraint violation
/// that is not the expected "already exists" race.
#[derive(Debug)]
pub enum RecordError {
    IdentityConflict,
}

/// The in-memory repository: one vector per table, ids handed out by a
/// counter starting at one.
pub struct StatsRepository {
    players: Vec<PlayerRow>,
    names: Vec<NameRow>,
    connections: Vec<ConnectionRow>,
    kills: Vec<KillRow>,
    weapon_stats: Vec<WeaponStatRow>,
    pair_stats: Vec<PairStatRow>,
    player_stats: Vec<PlayerStatRow>,
    next_player_id: u64,
}

impl View for StatsRepository {
    type V = RepoModel;

    closed spec fn view(&self) -> RepoModel {
        RepoModel {
            players: self.players@.map_values(|r: PlayerRow| r@),
            names: self.names@.map_values(|r: NameRow| r@),
            connections: self.connections@.map_values(|r: ConnectionRow| r@),
            kills: self.kills@.map_values(|r: KillRow| r@),
            weapon_stats: self.weapon_stats@.map_values(|r: WeaponStatRow| r@),
            pair_stats: self.pair_stats@.map_values(|r: PairStatRow| r@),
            player_stats: self.player_stats@.map_values(|r: PlayerStatRow| r@),
            next_player_id: self.next_player_id,
        }
    }
}

impl StatsRepository {
    /// An empty repository.
    pub fn new() -> (r: StatsRepository)
        ensures
            r@ == empty_repo(),
            wf(r@),
    {
        let r = StatsRepository {
            players: Vec::new(),
            names: Vec::new(),
            connections: Vec::new(),
            kills: Vec::new(),
            weapon_stats: Vec::new(),
            pair_stats: Vec::new(),
            player_stats: Vec::new(),
            next_player_id: 1,
        };
        proof {
            assert(r@.players =~= empty_repo().players);
            assert(r@.names =~= empty_repo().names);
            assert(r@.connections =~= empty_repo().connections);
            assert(r@.kills =~= empty_repo().kills);
            assert(r@.weapon_stats =~= empty_repo().weapon_stats);
            assert(r@.pair_stats =~= empty_repo().pair_stats);
            assert(r@.player_stats =~= empty_repo().player_stats);
            lemma_empty_repo_wf();
        }
        r
    }

    /// The index of the player row carrying this external identity.
    fn find_player_idx(&self, rid: &String) -> (r: Option<usize>)
        ensures
            match r {
                Some(i) => i < self@.players.len() && find_rid(self@.players, rid@) == Some(
                    i as int,
                ),
                None => find_rid(self@.players, rid@) is None,
            },
    {
        let mut i: usize = 0;
        while i < self.players.len()
            invariant
                0 <= i <= self@.players.len(),
                self@.players.len() == self.players@.len(),
                forall|k: int| 0 <= k < i ==> (#[trigger] self@.players[k]).reforger_id != rid@,
            decreases self.players@.len() - i,
        {
            if self.players[i].reforger_id == *rid {
                proof {
                    assert(rid_pred_of(rid@)(self@.players[i as int]));
                    assert forall|k: int| 0 <= k < i implies !rid_pred_of(rid@)(
                        self@.players[k],
                    ) by {
                        assert(self@.players[k].reforger_id != rid@);
                    }
                    lemma_first_match_at(self@.players, rid_pred_of(rid@), 0, i as int);
                }
                return Some(i);
            }
            i = i + 1;
        }
        proof {
            assert forall|k: int| 0 <= k < self@.players.len() implies !rid_pred_of(rid@)(
                self@.players[k],
            ) by {
                assert(self@.players[k].reforger_id != rid@);
            }
            lemma_first_match_none(self@.players, rid_pred_of(rid@), 0);
        }
        None
    }

    /// The index of the first name row carrying this username.
    fn find_username_idx(&self, u: &String) -> (r: Option<usize>)
        ensures
            match r {
                Some(i) => i < self@.names.len() && find_username(self@.names, u@) == Some(
                    i as int,
                ),
                None => find_username(self@.names, u@) is None,
            },
    {
        let mut i: usize = 0;
        while i < self.names.len()
            invariant
                0 <= i <= self@.names.len(),
                self@.names.len() == self.names@.len(),
                forall|k: int| 0 <= k < i ==> (#[trigger] self@.names[k]).username != u@,
            decreases self.names@.len() - i,
        {
            if self.names[i].username == *u {
                proof {
                    assert(username_pred_of(u@)(self@.names[i as int]));
                    assert forall|k: int| 0 <= k < i implies !username_pred_of(u@)(
                        self@.names[k],
                    ) by {
                        assert(self@.names[k].username != u@);
                    }
                    lemma_first_match_at(self@.names, username_pred_of(u@), 0, i as int);
                }
                return Some(i);
            }
            i = i + 1;
        }
        proof {
            assert forall|k: int| 0 <= k < self@.names.len() implies !username_pred_of(u@)(
                self@.names[k],
            ) by {
                assert(self@.names[k].username != u@);
            }
            lemma_first_match_none(self@.names, username_pred_of(u@), 0);
        }
        None
    }

    /// The index of the name row keyed by (player, username).
    fn find_name_row_idx(&self, pid: u64, u: &String) -> (r: Option<usize>)
        ensures
            match r {
                Some(i) => i < self@.names.len() && find_name_row(self@.names, pid, u@) == Some(
                    i as int,
                ),
                None => find_name_row(self@.names, pid, u@) is None,
            },
    {
        let mut i: usize = 0;
        while i < self.names.len()
            invariant
                0 <= i <= self@.names.len(),
                self@.names.len() == self.names@.len(),
                forall|k: int|
                    0 <= k < i ==> !((#[trigger] self@.names[k]).player_id == pid
                        && self@.names[k].username == u@),
            decreases self.names@.len() - i,
        {
            if self.names[i].player_id == pid && self.names[i].username == *u {
                proof {
                    assert(name_key_pred_of(pid, u@)(self@.names[i as int]));
                    assert forall|k: int| 0 <= k < i implies !name_key_pred_of(pid, u@)(
                        self@.names[k],
                    ) by {
                        assert(!(self@.names[k].player_id == pid && self@.names[k].username
                            == u@));
                    }
                    lemma_first_match_at(self@.names, name_key_pred_of(pid, u@), 0, i as int);
                }
                return Some(i);
            }
            i = i + 1;
        }
        proof {
            assert forall|k: int| 0 <= k < self@.names.len() implies !name_key_pred_of(pid, u@)(
                self@.names[k],
            ) by {
                assert(!(self@.names[k].player_id == pid && self@.names[k].username == u@));
            }
            lemma_first_match_none(self@.names, name_key_pred_of(pid, u@), 0);
        }
        None
    }

    /// The index of the connection record keyed by (player, ip).
    fn find_conn_row_idx(&self, pid: u64, ip: &String) -> (r: Option<usize>)
        ensures
            match r {
                Some(i) => i < self@.connections.len() && find_conn_row(
                    self@.connections,
                    pid,
                    ip@,
                ) == Some(i as int),
                None => find_conn_row(self@.connections, pid, ip@) is None,
            },
    {
        let mut i: usize = 0;
        while i < self.connections.len()
            invariant
                0 <= i <= self@.connections.len(),
                self@.connections.len() == self.connections@.len(),
                forall|k: int|
                    0 <= k < i ==> !((#[trigger] self@.connections[k]).player_id == pid
                        && self@.connections[k].ip_address == ip@),
            decreases self.connections@.len() - i,
        {
            if self.connections[i].player_id == pid && self.connections[i].ip_address == *ip {
                proof {
                    assert(conn_key_pred_of(pid, ip@)(self@.connections[i as int]));
                    assert forall|k: int| 0 <= k < i implies !conn_key_pred_of(pid, ip@)(
                        self@.connections[k],
                    ) by {
                        assert(!(self@.connections[k].player_id == pid
                            && self@.connections[k].ip_address == ip@));
                    }
                    lemma_first_match_at(
                        self@.connections,
                        conn_key_pred_of(pid, ip@),
                        0,
                        i as int,
                    );
                }
                return Some(i);
            }
            i = i + 1;
        }
        proof {
            assert forall|k: int| 0 <= k < self@.connections.len() implies !conn_key_pred_of(
                pid,
                ip@,
            )(self@.connections[k]) by {
                assert(!(self@.connections[k].player_id == pid && self@.connections[k].ip_address
                    == ip@));
            }
            lemma_first_match_none(self@.connections, conn_key_pred_of(pid, ip@), 0);
        }
        None
    }

    /// The player a raw username resolves to, if any.
    pub fn resolve_player(&self, username: &String) -> (r: Option<u64>)
        ensures
            r == resolve_player_spec(self@.names, username@),
    {
        match self.find_username_idx(username) {
            Some(i) => {
                proof {
                    lemma_first_match_some(self@.names, username_pred_of(username@), 0);
                }
                Some(self.names[i].player_id)
            },
            None => None,
        }
    }

    /// Records one completed connection event: upserts the player by
    /// external identity, the (player, username) pairing, and the
    /// (player, ip) record, as one all-or-nothing unit.
    pub fn record_connection(&mut self, ev: &PlayerConnection, now: u64)
        requires
            wf(old(self)@),
            old(self)@.next_player_id < u64::MAX,
        ensures
            final(self)@ == record_connection_spec(old(self)@, ev@, now),
            wf(final(self)@),
    {
        proof {
            lemma_record_connection_wf(old(self)@, ev@, now);
            lemma_upsert_player_wf(old(self)@, ev@, now);
        }
        let ghost m0 = old(self)@;
        let ghost up = upsert_player_spec(m0, ev@, now);
        // Step 1: upsert the player keyed by external identity.
        let pid: u64;
        match self.find_player_idx(&ev.reforger_id) {
            Some(i) => {
                proof {
                    lemma_first_match_some(m0.players, rid_pred_of(ev.reforger_id@), 0);
                }
                pid = self.players[i].player_id;
                let rid = self.players[i].reforger_id.clone();
                let fs = self.players[i].first_seen;
                self.players[i] = PlayerRow {
                    player_id: pid,
                    reforger_id: rid,
                    battleye_guid: Some(ev.battleye_guid.clone()),
                    first_seen: fs,
                    last_seen: now,
                };
                proof {
                    assert(self@.players =~= up.0.players);
                    assert(self@ =~= up.0);
                    assert(pid == up.1);
                }
            },
            None => {
                pid = self.next_player_id;
                self.players.push(
                    PlayerRow {
                        player_id: pid,
                        reforger_id: ev.reforger_id.clone(),
                        battleye_guid: Some(ev.battleye_guid.clone()),
                        first_seen: now,
                        last_seen: now,
                    },
                );
                self.player_stats.push(
                    PlayerStatRow {
                        player_id: pid,
                        total_kills: 0,
                        total_deaths: 0,
                        total_team_kills: 0,
                        longest_kill: 0,
                        kd_ratio_hundredths: 0,
                    },
                );
                self.next_player_id = self.next_player_id + 1;
                proof {
                    assert(self@.players =~= up.0.players);
                    assert(self@.player_stats =~= up.0.player_stats);
                    assert(self@ =~= up.0);
                    assert(pid == up.1);
                }
            },
        }
        let ghost m1 = upsert_name_spec(up.0, up.1, ev.username@, now);
        // Step 2: upsert the (player, username) pairing.
        match self.find_name_row_idx(pid, &ev.username) {
            Some(i) => {
                proof {
                    lemma_first_match_some(up.0.names, name_key_pred_of(pid, ev.username@), 0);
                }
                let u = self.names[i].username.clone();
                let fu = self.names[i].first_used;
                self.names[i] = NameRow {
                    player_id: pid,
                    username: u,
                    first_used: fu,
                    last_used: now,
                };
                proof {
                    assert(up.0.names[i as int].player_id == pid);
                    assert(self@.names =~= m1.names);
                    assert(self@ =~= m1);
                }
            },
            None => {
                self.names.push(
                    NameRow {
                        player_id: pid,
                        username: ev.username.clone(),
                        first_used: now,
                        last_used: now,
                    },
                );
                proof {
                    assert(self@.names =~= m1.names);
                    assert(self@ =~= m1);
                }
            },
        }
        let ghost m2 = upsert_conn_spec(m1, up.1, ev.ip_address@, ev.username@, now);
        // Step 3: upsert the (player, ip) connection record.
        match self.find_conn_row_idx(pid, &ev.ip_address) {
            Some(i) => {
                proof {
                    lemma_first_match_some(
                        m1.connections,
                        conn_key_pred_of(pid, ev.ip_address@),
                        0,
                    );
                }
                let ip = self.connections[i].ip_address.clone();
                self.connections[i] = ConnectionRow {
                    player_id: pid,
                    ip_address: ip,
                    username: ev.username.clone(),
                    connected_at: now,
                };
                proof {
                    assert(m1.connections[i as int].player_id == pid);
                    assert(self@.connections =~= m2.connections);
                    assert(self@ =~= m2);
                }
            },
            None => {
                self.connections.push(
                    ConnectionRow {
                        player_id: pid,
                        ip_address: ev.ip_address.clone(),
                        username: ev.username.clone(),
                        connected_at: now,
                    },
                );
                proof {
                    assert(self@.connections =~= m2.connections);
                    assert(self@ =~= m2);
                }
            },
        }
    }
}


// ---------------------------------------------------------------------------
// The kill-recording transforms.
// ---------------------------------------------------------------------------
/// An optional text field, the empty string when absent, as the store keeps
/// it.
pub open spec fn or_empty(o: Option<Seq<char>>) -> Seq<char> {
    match o {
        Some(s) => s,
        None => Seq::empty(),
    }
}

pub open spec fn max2(a: int, b: int) -> int {
    if a > b {
        a
    } else {
        b
    }
}

/// Creates a player first sighted under a username: a player row under a
/// fresh external identity, the name row, and a zero-initialized stats row.
pub open spec fn create_player_spec(
    m: RepoModel,
    username: Seq<char>,
    rid: Seq<char>,
    now: u64,
) -> RepoModel {
    let pid = m.next_player_id;
    RepoModel {
        players: m.players.push(
            PlayerData {
                player_id: pid,
                reforger_id: rid,
                battleye_guid: None,
                first_seen: now,
                last_seen: now,
            },
        ),
        names: m.names.push(
            NameData { player_id: pid, username: username, first_used: now, last_used: now },
        ),
        player_stats: m.player_stats.push(zero_stat(pid)),
        next_player_id: (pid + 1) as u64,
        ..m
    }
}

/// Resolves a username to its player, creating the player when absent; a
/// fresh identity that is already stored is the one failure.
pub open spec fn get_or_create_spec(
    m: RepoModel,
    username: Seq<char>,
    rid: Seq<char>,
    now: u64,
) -> (RepoModel, Option<u64>) {
    match resolve_player_spec(m.names, username) {
        Some(pid) => (m, Some(pid)),
        None => if rid_taken(m.players, rid) {
            (m, None)
        } else {
            (create_player_spec(m, username, rid, now), Some(m.next_player_id))
        },
    }
}

/// The kill row an event becomes, once both parties are resolved.
pub open spec fn kill_data_of(ev: crate::kill_parser::KillEventModel, kid: u64, vid: u64, now: u64) -> KillData {
    KillData {
        killer_id: kid,
        victim_id: vid,
        weapon: or_empty(ev.weapon),
        distance: ev.distance,
        is_team_kill: ev.is_team_kill,
        killer_faction: or_empty(ev.killer_faction),
        victim_faction: or_empty(ev.victim_faction),
        killed_at: now,
    }
}

/// The per-(player, weapon) upsert for one kill.
pub open spec fn upsert_weapon_stat_spec(
    ws: Seq<WeaponStatData>,
    kid: u64,
    k: KillData,
    now: u64,
) -> Seq<WeaponStatData> {
    let d0 = dist_or_zero(k);
    let tk: int = if k.is_team_kill {
        1
    } else {
        0
    };
    match find_weapon_row(ws, kid, k.weapon) {
        Some(i) => if 0 <= i < ws.len() {
            let r = ws[i];
            ws.update(
                i,
                WeaponStatData {
                    total_kills: (r.total_kills + 1) as u64,
                    total_team_kills: (r.total_team_kills + tk) as u64,
                    total_distance: (r.total_distance + d0) as u128,
                    longest_kill: max2(r.longest_kill as int, d0) as u64,
                    last_kill: now,
                    ..r
                },
            )
        } else {
            ws
        },
        None => ws.push(
            WeaponStatData {
                player_id: kid,
                weapon: k.weapon,
                total_kills: 1,
                total_team_kills: tk as u64,
                total_distance: d0 as u128,
                longest_kill: d0 as u64,
                last_kill: now,
            },
        ),
    }
}

/// The per-(killer, victim) upsert for one kill.
pub open spec fn upsert_pair_stat_spec(
    ps: Seq<PairStatData>,
    kid: u64,
    vid: u64,
    now: u64,
) -> Seq<PairStatData> {
    match find_pair_row(ps, kid, vid) {
        Some(i) => if 0 <= i < ps.len() {
            let r = ps[i];
            ps.update(
                i,
                PairStatData { total_kills: (r.total_kills + 1) as u64, last_kill: now, ..r },
            )
        } else {
            ps
        },
        None => ps.push(
            PairStatData { killer_id: kid, victim_id: vid, total_kills: 1, last_kill: now },
        ),
    }
}

/// The killer's side of the per-player upsert.
pub open spec fn stat_add_kill_spec(ss: Seq<PlayerStatData>, kid: u64, k: KillData) -> Seq<
    PlayerStatData,
> {
    let d0 = dist_or_zero(k);
    let tk: int = if k.is_team_kill {
        1
    } else {
        0
    };
    match find_stat_row(ss, kid) {
        Some(i) => if 0 <= i < ss.len() {
            let r = ss[i];
            ss.update(
                i,
                PlayerStatData {
                    total_kills: (r.total_kills + 1) as u64,
                    total_team_kills: (r.total_team_kills + tk) as u64,
                    longest_kill: max2(r.longest_kill as int, d0) as u64,
                    ..r
                },
            )
        } else {
            ss
        },
        None => ss.push(
            PlayerStatData {
                player_id: kid,
                total_kills: 1,
                total_deaths: 0,
                total_team_kills: tk as u64,
                longest_kill: d0 as u64,
                kd_ratio_hundredths: 0,
            },
        ),
    }
}

/// The victim's side of the per-player upsert.
pub open spec fn stat_add_death_spec(ss: Seq<PlayerStatData>, vid: u64) -> Seq<PlayerStatData> {
    match find_stat_row(ss, vid) {
        Some(i) => if 0 <= i < ss.len() {
            let r = ss[i];
            ss.update(i, PlayerStatData { total_deaths: (r.total_deaths + 1) as u64, ..r })
        } else {
            ss
        },
        None => ss.push(
            PlayerStatData {
                player_id: vid,
                total_kills: 0,
                total_deaths: 1,
                total_team_kills: 0,
                longest_kill: 0,
                kd_ratio_hundredths: 0,
            },
        ),
    }
}

/// Recomputes one player's stored ratio from its counters.
pub open spec fn recompute_kd_spec(ss: Seq<PlayerStatData>, pid: u64) -> Seq<PlayerStatData> {
    match find_stat_row(ss, pid) {
        Some(i) => if 0 <= i < ss.len() {
            let r = ss[i];
            ss.update(
                i,
                PlayerStatData {
                    kd_ratio_hundredths: kd_ratio_spec(r.total_kills, r.total_deaths) as u128,
                    ..r
                },
            )
        } else {
            ss
        },
        None => ss,
    }
}

/// Everything one kill does once both parties exist: the immutable record,
/// the weapon, pair and player aggregates, and both ratios.
pub open spec fn apply_kill_spec(
    m: RepoModel,
    kid: u64,
    vid: u64,
    ev: crate::kill_parser::KillEventModel,
    now: u64,
) -> RepoModel {
    let k = kill_data_of(ev, kid, vid, now);
    RepoModel {
        kills: m.kills.push(k),
        weapon_stats: upsert_weapon_stat_spec(m.weapon_stats, kid, k, now),
        pair_stats: upsert_pair_stat_spec(m.pair_stats, kid, vid, now),
        player_stats: recompute_kd_spec(
            recompute_kd_spec(stat_add_death_spec(stat_add_kill_spec(m.player_stats, kid, k), vid), kid),
            vid,
        ),
        ..m
    }
}

/// The whole effect of recording one kill event under two candidate fresh
/// identities: nothing, when a needed identity is already taken.
pub open spec fn record_kill_spec(
    m: RepoModel,
    ev: crate::kill_parser::KillEventModel,
    rk: Seq<char>,
    rv: Seq<char>,
    now: u64,
) -> Option<RepoModel> {
    let g1 = get_or_create_spec(m, ev.killer_name, rk, now);
    match g1.1 {
        None => None,
        Some(kid) => {
            let g2 = get_or_create_spec(g1.0, ev.victim_name, rv, now);
            match g2.1 {
                None => None,
                Some(vid) => Some(apply_kill_spec(g2.0, kid, vid, ev, now)),
            }
        },
    }
}

// ---------------------------------------------------------------------------
// Preservation of the invariant along the kill path.
// ---------------------------------------------------------------------------
/// Two same-length sequences on which `p` agrees elementwise search the
/// same.
pub proof fn lemma_first_match_equiv<T>(s: Seq<T>, s2: Seq<T>, p: spec_fn(T) -> bool, i: int)
    requires
        s2.len() == s.len(),
        forall|j: int| 0 <= j < s.len() ==> p(s2[j]) == p(s[j]),
    ensures
        first_match(s2, p, i) == first_match(s, p, i),
    decreases s.len() - i + 1,
{
    if 0 <= i && i < s.len() {
        lemma_first_match_equiv(s, s2, p, i + 1);
    }
}

/// Creating a player preserves the invariant; the kill log and the weapon,
/// pair and connection tables are untouched.
pub proof fn lemma_create_player_wf(m: RepoModel, username: Seq<char>, rid: Seq<char>, now: u64)
    requires
        wf(m),
        m.next_player_id < u64::MAX,
        resolve_player_spec(m.names, username) is None,
    ensures
        ({
            let m2 = create_player_spec(m, username, rid, now);
            &&& wf(m2)
            &&& has_player(m2, m.next_player_id)
            &&& forall|pid: u64|
                #![trigger has_player(m2, pid)]
                has_player(m, pid) ==> has_player(m2, pid)
            &&& m2.connections == m.connections
            &&& m2.kills == m.kills
            &&& m2.weapon_stats == m.weapon_stats
            &&& m2.pair_stats == m.pair_stats
            &&& m2.next_player_id == m.next_player_id + 1
            &&& resolve_player_spec(m2.names, username) == Some(m.next_player_id)
        }),
{
    let pid = m.next_player_id;
    let m2 = create_player_spec(m, username, rid, now);
    lemma_push_player_has_player(m, m2, m2.players.last());
    lemma_fresh_id_untouched(m, pid);
    // names: the new row's key is fresh because its player id is
    assert forall|k: int| 0 <= k < m.names.len() implies (#[trigger] m.names[k]).player_id
        != pid by {
        assert(has_player(m, m.names[k].player_id));
        let j = choose|j: int|
            0 <= j < m.players.len() && #[trigger] m.players[j].player_id == m.names[k].player_id;
    }
    assert(m2.names[m.names.len() as int].player_id == pid);
    // player stats: the pushed zero row is fresh and consistent
    assert forall|k: int| 0 <= k < m.player_stats.len() implies (
    #[trigger] m.player_stats[k]).player_id != pid by {
        assert(has_player(m, m.player_stats[k].player_id));
        let j = choose|j: int|
            0 <= j < m.players.len() && #[trigger] m.players[j].player_id
                == m.player_stats[k].player_id;
    }
    assert forall|k: int| 0 <= k < m2.players.len() implies find_stat_row(
        m2.player_stats,
        (#[trigger] m2.players[k]).player_id,
    ) is Some by {
        if k < m.players.len() {
            lemma_first_match_push_from(
                m.player_stats,
                stat_key_pred_of(m.players[k].player_id),
                zero_stat(pid),
                0,
            );
        } else {
            lemma_first_match_none(m.player_stats, stat_key_pred_of(pid), 0);
            lemma_first_match_push_from(m.player_stats, stat_key_pred_of(pid), zero_stat(pid), 0);
            assert(m2.player_stats[m.player_stats.len() as int].player_id == pid);
        }
    }
    assert(m2.player_stats.last() == zero_stat(pid));
    assert(zero_stat(pid).kd_ratio_hundredths == kd_ratio_spec(0, 0));
    // the new name row resolves to the new player
    assert(username_pred_of(username)(m2.names.last()));
    match find_username(m.names, username) {
        Some(i) => {
            lemma_first_match_some(m.names, username_pred_of(username), 0);
        },
        None => {
            lemma_first_match_push_from(m.names, username_pred_of(username), m2.names.last(), 0);
        },
    }
}


/// The weapon upsert keeps every weapon-stats conjunct, against the grown
/// kill log.
#[verifier::rlimit(60)]
proof fn lemma_weapon_upsert_wf(m: RepoModel, kid: u64, k: KillData, now: u64)
    requires
        wf(m),
        has_player(m, kid),
        m.kills.len() < u64::MAX,
        k.killer_id == kid,
    ensures
        ({
            let ws2 = upsert_weapon_stat_spec(m.weapon_stats, kid, k, now);
            let kills2 = m.kills.push(k);
            &&& ws2.len() >= m.weapon_stats.len()
            &&& forall|i: int| 0 <= i < ws2.len() ==> has_player(m, #[trigger] ws2[i].player_id)
            &&& forall|i: int, j: int|
                #![trigger ws2[i], ws2[j]]
                0 <= i < j < ws2.len() ==> !(ws2[i].player_id == ws2[j].player_id && ws2[i].weapon
                    == ws2[j].weapon)
            &&& forall|i: int|
                0 <= i < ws2.len() ==> {
                    let r = #[trigger] ws2[i];
                    &&& r.total_kills == count_matching(
                        kills2,
                        killer_weapon_pred_of(r.player_id, r.weapon),
                    )
                    &&& r.total_team_kills == count_matching(
                        kills2,
                        killer_weapon_tk_pred_of(r.player_id, r.weapon),
                    )
                    &&& r.total_distance == sum_over(
                        kills2,
                        killer_weapon_dist_of(r.player_id, r.weapon),
                    )
                    &&& r.longest_kill == max_over(
                        kills2,
                        killer_weapon_dist_of(r.player_id, r.weapon),
                    )
                }
            &&& forall|i: int|
                0 <= i < kills2.len() ==> find_weapon_row(
                    ws2,
                    (#[trigger] kills2[i]).killer_id,
                    kills2[i].weapon,
                ) is Some
        }),
{
    let ws = m.weapon_stats;
    let ws2 = upsert_weapon_stat_spec(ws, kid, k, now);
    let kills2 = m.kills.push(k);
    let d0 = dist_or_zero(k);
    assert(0 <= d0 <= u64::MAX);
    let key = weapon_key_pred_of(kid, k.weapon);
    match find_weapon_row(ws, kid, k.weapon) {
        Some(i) => {
            lemma_first_match_some(ws, key, 0);
            let r = ws[i];
            assert(r.player_id == kid && r.weapon == k.weapon);
            lemma_count_bounds(m.kills, killer_weapon_pred_of(kid, k.weapon));
            lemma_count_bounds(m.kills, killer_weapon_tk_pred_of(kid, k.weapon));
            assert forall|i2: int|
                0 <= i2 < m.kills.len() implies 0 <= #[trigger] killer_weapon_dist_of(
                kid,
                k.weapon,
            )(m.kills[i2]) <= 0xffffffffffffffff by {}
            lemma_sum_bounded(
                m.kills,
                killer_weapon_dist_of(kid, k.weapon),
                0xffffffffffffffff,
            );
            assert(r.total_distance + d0 <= 0xffffffffffffffffffffffffffffffff) by (nonlinear_arith)
                requires
                    r.total_distance <= m.kills.len() * 0xffffffffffffffff,
                    m.kills.len() <= 0xfffffffffffffffe,
                    0 <= d0 <= 0xffffffffffffffff,
                    r.total_distance >= 0,
            ;
            assert forall|j: int| 0 <= j < ws2.len() implies {
                let rj = #[trigger] ws2[j];
                &&& rj.total_kills == count_matching(
                    kills2,
                    killer_weapon_pred_of(rj.player_id, rj.weapon),
                )
                &&& rj.total_team_kills == count_matching(
                    kills2,
                    killer_weapon_tk_pred_of(rj.player_id, rj.weapon),
                )
                &&& rj.total_distance == sum_over(
                    kills2,
                    killer_weapon_dist_of(rj.player_id, rj.weapon),
                )
                &&& rj.longest_kill == max_over(
                    kills2,
                    killer_weapon_dist_of(rj.player_id, rj.weapon),
                )
            } by {
                let rj = ws2[j];
                lemma_count_push(m.kills, killer_weapon_pred_of(rj.player_id, rj.weapon), k);
                lemma_count_push(m.kills, killer_weapon_tk_pred_of(rj.player_id, rj.weapon), k);
                lemma_sum_push(m.kills, killer_weapon_dist_of(rj.player_id, rj.weapon), k);
                lemma_max_push(m.kills, killer_weapon_dist_of(rj.player_id, rj.weapon), k);
                lemma_max_nonneg(m.kills, killer_weapon_dist_of(rj.player_id, rj.weapon));
                if j != i {
                    assert(rj == ws[j]);
                    assert(!(rj.player_id == kid && rj.weapon == k.weapon));
                }
            }
            assert forall|j: int| 0 <= j < kills2.len() implies find_weapon_row(
                ws2,
                (#[trigger] kills2[j]).killer_id,
                kills2[j].weapon,
            ) is Some by {
                let kj = kills2[j];
                let keyj = weapon_key_pred_of(kj.killer_id, kj.weapon);
                if j < m.kills.len() {
                    assert(kills2[j] == m.kills[j]);
                    assert(find_weapon_row(ws, kj.killer_id, kj.weapon) is Some);
                    lemma_first_match_some(ws, keyj, 0);
                    let jj = find_weapon_row(ws, kj.killer_id, kj.weapon)->0;
                    assert(keyj(ws2[jj]));
                    lemma_first_match_exists(ws2, keyj);
                } else {
                    assert(kj == k);
                    assert(keyj(ws2[i]));
                    lemma_first_match_exists(ws2, keyj);
                }
            }
        },
        None => {
            lemma_first_match_absent(ws, key, 0);
            // no old kill carries this key, or a row would exist
            assert forall|j: int| 0 <= j < m.kills.len() implies !killer_weapon_pred_of(
                kid,
                k.weapon,
            )(m.kills[j]) && !killer_weapon_tk_pred_of(kid, k.weapon)(m.kills[j])
                && killer_weapon_dist_of(kid, k.weapon)(m.kills[j]) == 0 by {
                if m.kills[j].killer_id == kid && m.kills[j].weapon == k.weapon {
                    assert(find_weapon_row(ws, m.kills[j].killer_id, m.kills[j].weapon) is Some);
                    lemma_first_match_some(ws, weapon_key_pred_of(kid, k.weapon), 0);
                }
            }
            lemma_count_zero(m.kills, killer_weapon_pred_of(kid, k.weapon));
            lemma_count_zero(m.kills, killer_weapon_tk_pred_of(kid, k.weapon));
            lemma_sum_zero(m.kills, killer_weapon_dist_of(kid, k.weapon));
            lemma_max_zero(m.kills, killer_weapon_dist_of(kid, k.weapon));
            assert forall|j: int| 0 <= j < ws2.len() implies {
                let rj = #[trigger] ws2[j];
                &&& rj.total_kills == count_matching(
                    kills2,
                    killer_weapon_pred_of(rj.player_id, rj.weapon),
                )
                &&& rj.total_team_kills == count_matching(
                    kills2,
                    killer_weapon_tk_pred_of(rj.player_id, rj.weapon),
                )
                &&& rj.total_distance == sum_over(
                    kills2,
                    killer_weapon_dist_of(rj.player_id, rj.weapon),
                )
                &&& rj.longest_kill == max_over(
                    kills2,
                    killer_weapon_dist_of(rj.player_id, rj.weapon),
                )
            } by {
                let rj = ws2[j];
                lemma_count_push(m.kills, killer_weapon_pred_of(rj.player_id, rj.weapon), k);
                lemma_count_push(m.kills, killer_weapon_tk_pred_of(rj.player_id, rj.weapon), k);
                lemma_sum_push(m.kills, killer_weapon_dist_of(rj.player_id, rj.weapon), k);
                lemma_max_push(m.kills, killer_weapon_dist_of(rj.player_id, rj.weapon), k);
                lemma_max_nonneg(m.kills, killer_weapon_dist_of(rj.player_id, rj.weapon));
                if j < ws.len() {
                    assert(rj == ws[j]);
                    assert(!(rj.player_id == kid && rj.weapon == k.weapon));
                }
            }
            assert forall|j: int| 0 <= j < kills2.len() implies find_weapon_row(
                ws2,
                (#[trigger] kills2[j]).killer_id,
                kills2[j].weapon,
            ) is Some by {
                let kj = kills2[j];
                let keyj = weapon_key_pred_of(kj.killer_id, kj.weapon);
                if j < m.kills.len() {
                    assert(kills2[j] == m.kills[j]);
                    assert(find_weapon_row(ws, kj.killer_id, kj.weapon) is Some);
                    lemma_first_match_some(ws, keyj, 0);
                    let jj = find_weapon_row(ws, kj.killer_id, kj.weapon)->0;
                    assert(keyj(ws2[jj]));
                    lemma_first_match_exists(ws2, keyj);
                } else {
                    assert(kj == k);
                    assert(keyj(ws2[ws.len() as int]));
                    lemma_first_match_exists(ws2, keyj);
                }
            }
        },
    }
}

/// The pair upsert keeps every pair-stats conjunct, against the grown kill
/// log.
#[verifier::rlimit(60)]
proof fn lemma_pair_upsert_wf(m: RepoModel, kid: u64, vid: u64, k: KillData, now: u64)
    requires
        wf(m),
        has_player(m, kid),
        has_player(m, vid),
        m.kills.len() < u64::MAX,
        k.killer_id == kid,
        k.victim_id == vid,
    ensures
        ({
            let ps2 = upsert_pair_stat_spec(m.pair_stats, kid, vid, now);
            let kills2 = m.kills.push(k);
            &&& forall|i: int|
                0 <= i < ps2.len() ==> has_player(m, #[trigger] ps2[i].killer_id) && has_player(
                    m,
                    ps2[i].victim_id,
                )
            &&& forall|i: int, j: int|
                #![trigger ps2[i], ps2[j]]
                0 <= i < j < ps2.len() ==> !(ps2[i].killer_id == ps2[j].killer_id
                    && ps2[i].victim_id == ps2[j].victim_id)
            &&& forall|i: int|
                0 <= i < ps2.len() ==> (#[trigger] ps2[i]).total_kills == count_matching(
                    kills2,
                    pair_pred_of_kill(ps2[i].killer_id, ps2[i].victim_id),
                )
            &&& forall|i: int|
                0 <= i < kills2.len() ==> find_pair_row(
                    ps2,
                    (#[trigger] kills2[i]).killer_id,
                    kills2[i].victim_id,
                ) is Some
        }),
{
    let ps = m.pair_stats;
    let ps2 = upsert_pair_stat_spec(ps, kid, vid, now);
    let kills2 = m.kills.push(k);
    let key = pair_key_pred_of(kid, vid);
    match find_pair_row(ps, kid, vid) {
        Some(i) => {
            lemma_first_match_some(ps, key, 0);
            let r = ps[i];
            lemma_count_bounds(m.kills, pair_pred_of_kill(kid, vid));
            assert forall|j: int| 0 <= j < ps2.len() implies (#[trigger] ps2[j]).total_kills
                == count_matching(
                kills2,
                pair_pred_of_kill(ps2[j].killer_id, ps2[j].victim_id),
            ) by {
                let rj = ps2[j];
                lemma_count_push(m.kills, pair_pred_of_kill(rj.killer_id, rj.victim_id), k);
                if j != i {
                    assert(rj == ps[j]);
                    assert(!(rj.killer_id == kid && rj.victim_id == vid));
                }
            }
            assert forall|j: int| 0 <= j < kills2.len() implies find_pair_row(
                ps2,
                (#[trigger] kills2[j]).killer_id,
                kills2[j].victim_id,
            ) is Some by {
                let kj = kills2[j];
                let keyj = pair_key_pred_of(kj.killer_id, kj.victim_id);
                if j < m.kills.len() {
                    assert(kills2[j] == m.kills[j]);
                    assert(find_pair_row(ps, kj.killer_id, kj.victim_id) is Some);
                    lemma_first_match_some(ps, keyj, 0);
                    let jj = find_pair_row(ps, kj.killer_id, kj.victim_id)->0;
                    assert(keyj(ps2[jj]));
                    lemma_first_match_exists(ps2, keyj);
                } else {
                    assert(keyj(ps2[i]));
                    lemma_first_match_exists(ps2, keyj);
                }
            }
        },
        None => {
            lemma_first_match_absent(ps, key, 0);
            assert forall|j: int| 0 <= j < m.kills.len() implies !pair_pred_of_kill(kid, vid)(
                m.kills[j],
            ) by {
                if m.kills[j].killer_id == kid && m.kills[j].victim_id == vid {
                    assert(find_pair_row(ps, m.kills[j].killer_id, m.kills[j].victim_id) is Some);
                    lemma_first_match_some(ps, pair_key_pred_of(kid, vid), 0);
                }
            }
            lemma_count_zero(m.kills, pair_pred_of_kill(kid, vid));
            assert forall|j: int| 0 <= j < ps2.len() implies (#[trigger] ps2[j]).total_kills
                == count_matching(
                kills2,
                pair_pred_of_kill(ps2[j].killer_id, ps2[j].victim_id),
            ) by {
                let rj = ps2[j];
                lemma_count_push(m.kills, pair_pred_of_kill(rj.killer_id, rj.victim_id), k);
                if j < ps.len() {
                    assert(rj == ps[j]);
                    assert(!(rj.killer_id == kid && rj.victim_id == vid));
                }
            }
            assert forall|j: int| 0 <= j < kills2.len() implies find_pair_row(
                ps2,
                (#[trigger] kills2[j]).killer_id,
                kills2[j].victim_id,
            ) is Some by {
                let kj = kills2[j];
                let keyj = pair_key_pred_of(kj.killer_id, kj.victim_id);
                if j < m.kills.len() {
                    assert(kills2[j] == m.kills[j]);
                    assert(find_pair_row(ps, kj.killer_id, kj.victim_id) is Some);
                    lemma_first_match_some(ps, keyj, 0);
                    let jj = find_pair_row(ps, kj.killer_id, kj.victim_id)->0;
                    assert(keyj(ps2[jj]));
                    lemma_first_match_exists(ps2, keyj);
                } else {
                    assert(keyj(ps2[ps.len() as int]));
                    lemma_first_match_exists(ps2, keyj);
                }
            }
        },
    }
}


/// The four chained per-player updates of one kill: keys stay, and every
/// row ends consistent with the grown kill log.
#[verifier::rlimit(100)]
proof fn lemma_player_stats_after_kill(m: RepoModel, kid: u64, vid: u64, k: KillData, now: u64)
    requires
        wf(m),
        has_player(m, kid),
        has_player(m, vid),
        m.kills.len() < u64::MAX,
        k.killer_id == kid,
        k.victim_id == vid,
    ensures
        ({
            let ss5 = recompute_kd_spec(
                recompute_kd_spec(
                    stat_add_death_spec(stat_add_kill_spec(m.player_stats, kid, k), vid),
                    kid,
                ),
                vid,
            );
            let kills2 = m.kills.push(k);
            &&& ss5.len() == m.player_stats.len()
            &&& forall|j: int|
                0 <= j < ss5.len() ==> (#[trigger] ss5[j]).player_id
                    == m.player_stats[j].player_id
            &&& forall|j: int|
                0 <= j < ss5.len() ==> {
                    let r = #[trigger] ss5[j];
                    &&& r.total_kills == count_matching(kills2, killer_pred_of(r.player_id))
                    &&& r.total_deaths == count_matching(kills2, victim_pred_of(r.player_id))
                    &&& r.total_team_kills == count_matching(
                        kills2,
                        killer_tk_pred_of(r.player_id),
                    )
                    &&& r.longest_kill == max_over(kills2, killer_dist_of(r.player_id))
                    &&& r.kd_ratio_hundredths == kd_ratio_spec(r.total_kills, r.total_deaths)
                }
        }),
{
    let ss = m.player_stats;
    let kills2 = m.kills.push(k);
    let d0 = dist_or_zero(k);
    assert(0 <= d0 <= u64::MAX);
    // both rows exist, by completeness
    assert(find_stat_row(ss, kid) is Some) by {
        let ip = choose|i: int| 0 <= i < m.players.len() && #[trigger] m.players[i].player_id == kid;
        assert(find_stat_row(m.player_stats, m.players[ip].player_id) is Some);
    }
    assert(find_stat_row(ss, vid) is Some) by {
        let ip = choose|i: int| 0 <= i < m.players.len() && #[trigger] m.players[i].player_id == vid;
        assert(find_stat_row(m.player_stats, m.players[ip].player_id) is Some);
    }
    lemma_first_match_some(ss, stat_key_pred_of(kid), 0);
    lemma_first_match_some(ss, stat_key_pred_of(vid), 0);
    let ik = find_stat_row(ss, kid)->0;
    let iv = find_stat_row(ss, vid)->0;
    assert(ss[ik].player_id == kid);
    assert(ss[iv].player_id == vid);
    lemma_count_bounds(m.kills, killer_pred_of(kid));
    lemma_count_bounds(m.kills, killer_tk_pred_of(kid));
    lemma_count_bounds(m.kills, victim_pred_of(vid));
    let ss2 = stat_add_kill_spec(ss, kid, k);
    assert(ss2.len() == ss.len());
    assert(forall|j: int| 0 <= j < ss.len() ==> (#[trigger] ss2[j]).player_id == ss[j].player_id);
    assert forall|j: int|
        0 <= j < ss.len() implies #[trigger] stat_key_pred_of(vid)(ss2[j]) == stat_key_pred_of(
        vid,
    )(ss[j]) by {}
    lemma_first_match_equiv(ss, ss2, stat_key_pred_of(vid), 0);
    let ss3 = stat_add_death_spec(ss2, vid);
    assert(ss3 == ss2.update(iv, PlayerStatData { total_deaths: (ss2[iv].total_deaths + 1) as u64, ..ss2[iv] }));
    assert(ss3.len() == ss.len());
    assert(forall|j: int| 0 <= j < ss.len() ==> (#[trigger] ss3[j]).player_id == ss[j].player_id);
    assert forall|j: int|
        0 <= j < ss.len() implies #[trigger] stat_key_pred_of(kid)(ss3[j]) == stat_key_pred_of(
        kid,
    )(ss[j]) by {}
    lemma_first_match_equiv(ss, ss3, stat_key_pred_of(kid), 0);
    let ss4 = recompute_kd_spec(ss3, kid);
    assert(ss4 == ss3.update(ik, PlayerStatData { kd_ratio_hundredths: kd_ratio_spec(ss3[ik].total_kills, ss3[ik].total_deaths) as u128, ..ss3[ik] }));
    assert(ss4.len() == ss.len());
    assert(forall|j: int| 0 <= j < ss.len() ==> (#[trigger] ss4[j]).player_id == ss[j].player_id);
    assert forall|j: int|
        0 <= j < ss.len() implies #[trigger] stat_key_pred_of(vid)(ss4[j]) == stat_key_pred_of(
        vid,
    )(ss[j]) by {}
    lemma_first_match_equiv(ss, ss4, stat_key_pred_of(vid), 0);
    let ss5 = recompute_kd_spec(ss4, vid);
    assert(ss5 == ss4.update(iv, PlayerStatData { kd_ratio_hundredths: kd_ratio_spec(ss4[iv].total_kills, ss4[iv].total_deaths) as u128, ..ss4[iv] }));
    assert(ss5.len() == ss.len());
    assert(forall|j: int| 0 <= j < ss.len() ==> (#[trigger] ss5[j]).player_id == ss[j].player_id);
    // per-row consistency against the grown log
    assert forall|j: int| 0 <= j < ss5.len() implies {
        let r = #[trigger] ss5[j];
        &&& r.total_kills == count_matching(kills2, killer_pred_of(r.player_id))
        &&& r.total_deaths == count_matching(kills2, victim_pred_of(r.player_id))
        &&& r.total_team_kills == count_matching(kills2, killer_tk_pred_of(r.player_id))
        &&& r.longest_kill == max_over(kills2, killer_dist_of(r.player_id))
        &&& r.kd_ratio_hundredths == kd_ratio_spec(r.total_kills, r.total_deaths)
    } by {
        let pj = ss[j].player_id;
        lemma_count_push(m.kills, killer_pred_of(pj), k);
        lemma_count_push(m.kills, victim_pred_of(pj), k);
        lemma_count_push(m.kills, killer_tk_pred_of(pj), k);
        lemma_max_push(m.kills, killer_dist_of(pj), k);
        lemma_max_nonneg(m.kills, killer_dist_of(pj));
        if j != ik && j != iv {
            assert(pj != kid && pj != vid);
            assert(ss5[j] == ss[j]);
        } else if ik == iv {
            assert(kid == vid);
            assert(j == ik);
        } else if j == ik {
            assert(pj == kid && pj != vid);
        } else {
            assert(pj == vid && pj != kid);
        }
    }
}

/// Resolve-or-create preserves the invariant; the kill log and the weapon,
/// pair and connection tables are untouched, and a resolved id is a present
/// player.
pub proof fn lemma_get_or_create_wf(m: RepoModel, username: Seq<char>, rid: Seq<char>, now: u64)
    requires
        wf(m),
        m.next_player_id < u64::MAX,
    ensures
        ({
            let g = get_or_create_spec(m, username, rid, now);
            &&& wf(g.0)
            &&& (g.1 is Some ==> has_player(g.0, g.1->0))
            &&& forall|pid: u64|
                #![trigger has_player(g.0, pid)]
                has_player(m, pid) ==> has_player(g.0, pid)
            &&& g.0.connections == m.connections
            &&& g.0.kills == m.kills
            &&& g.0.weapon_stats == m.weapon_stats
            &&& g.0.pair_stats == m.pair_stats
            &&& m.next_player_id <= g.0.next_player_id <= m.next_player_id + 1
            &&& (g.1 is None ==> g.0 == m)
        }),
{
    let g = get_or_create_spec(m, username, rid, now);
    match resolve_player_spec(m.names, username) {
        Some(pid) => {
            lemma_first_match_some(m.names, username_pred_of(username), 0);
            let i = find_username(m.names, username)->0;
            assert(has_player(m, m.names[i].player_id));
            assert forall|p: u64| #![trigger has_player(g.0, p)] has_player(m, p) implies has_player(
                g.0,
                p,
            ) by {}
        },
        None => {
            if rid_taken(m.players, rid) {
                assert forall|p: u64|
                    #![trigger has_player(g.0, p)]
                    has_player(m, p) implies has_player(g.0, p) by {}
            } else {
                lemma_create_player_wf(m, username, rid, now);
            }
        },
    }
}

/// Applying a kill for two present players preserves the invariant.
#[verifier::rlimit(60)]
pub proof fn lemma_apply_kill_wf(m: RepoModel, kid: u64, vid: u64, ev: crate::kill_parser::KillEventModel, now: u64)
    requires
        wf(m),
        has_player(m, kid),
        has_player(m, vid),
        m.kills.len() < u64::MAX,
    ensures
        wf(apply_kill_spec(m, kid, vid, ev, now)),
{
    let k = kill_data_of(ev, kid, vid, now);
    let m2 = apply_kill_spec(m, kid, vid, ev, now);
    assert(m2.players == m.players);
    assert(m2.names == m.names);
    assert(m2.connections == m.connections);
    lemma_same_ids_has_player(m, m2);
    lemma_weapon_upsert_wf(m, kid, k, now);
    lemma_pair_upsert_wf(m, kid, vid, k, now);
    lemma_player_stats_after_kill(m, kid, vid, k, now);
    let ss = m.player_stats;
    let ss5 = m2.player_stats;
    // stats keys survive, so uniqueness, presence and completeness carry over
    assert forall|i: int, j: int|
        #![trigger ss5[i], ss5[j]]
        0 <= i < j < ss5.len() implies ss5[i].player_id != ss5[j].player_id by {
        assert(ss[i].player_id != ss[j].player_id);
    }
    assert forall|i: int| 0 <= i < ss5.len() implies has_player(
        m2,
        #[trigger] ss5[i].player_id,
    ) by {
        assert(has_player(m, ss[i].player_id));
    }
    assert forall|i: int| 0 <= i < m2.players.len() implies find_stat_row(
        ss5,
        (#[trigger] m2.players[i]).player_id,
    ) is Some by {
        let pid = m2.players[i].player_id;
        assert(find_stat_row(ss, pid) is Some);
        assert forall|j: int|
            0 <= j < ss.len() implies #[trigger] stat_key_pred_of(pid)(ss5[j]) == stat_key_pred_of(
            pid,
        )(ss[j]) by {}
        lemma_first_match_equiv(ss, ss5, stat_key_pred_of(pid), 0);
    }
    assert(wf_players(m2));
    assert(wf_names(m2));
    assert(wf_connections(m2));
    assert(wf_kills(m2));
    assert(wf_weapon_stats(m2));
    assert(wf_pair_stats(m2));
    assert(wf_player_stats(m2));
}


impl StatsRepository {
    /// The index of the weapon-stats row keyed by (player, weapon).
    fn find_weapon_idx(&self, pid: u64, w: &String) -> (r: Option<usize>)
        ensures
            match r {
                Some(i) => i < self@.weapon_stats.len() && find_weapon_row(
                    self@.weapon_stats,
                    pid,
                    w@,
                ) == Some(i as int),
                None => find_weapon_row(self@.weapon_stats, pid, w@) is None,
            },
    {
        let mut i: usize = 0;
        while i < self.weapon_stats.len()
            invariant
                0 <= i <= self@.weapon_stats.len(),
                self@.weapon_stats.len() == self.weapon_stats@.len(),
                forall|k: int|
                    0 <= k < i ==> !((#[trigger] self@.weapon_stats[k]).player_id == pid
                        && self@.weapon_stats[k].weapon == w@),
            decreases self.weapon_stats@.len() - i,
        {
            if self.weapon_stats[i].player_id == pid && self.weapon_stats[i].weapon == *w {
                proof {
                    assert(weapon_key_pred_of(pid, w@)(self@.weapon_stats[i as int]));
                    assert forall|k: int| 0 <= k < i implies !weapon_key_pred_of(pid, w@)(
                        self@.weapon_stats[k],
                    ) by {
                        assert(!(self@.weapon_stats[k].player_id == pid
                            && self@.weapon_stats[k].weapon == w@));
                    }
                    lemma_first_match_at(
                        self@.weapon_stats,
                        weapon_key_pred_of(pid, w@),
                        0,
                        i as int,
                    );
                }
                return Some(i);
            }
            i = i + 1;
        }
        proof {
            assert forall|k: int| 0 <= k < self@.weapon_stats.len() implies !weapon_key_pred_of(
                pid,
                w@,
            )(self@.weapon_stats[k]) by {
                assert(!(self@.weapon_stats[k].player_id == pid && self@.weapon_stats[k].weapon
                    == w@));
            }
            lemma_first_match_none(self@.weapon_stats, weapon_key_pred_of(pid, w@), 0);
        }
        None
    }

    /// The index of the pair-stats row keyed by (killer, victim).
    fn find_pair_idx(&self, killer: u64, victim: u64) -> (r: Option<usize>)
        ensures
            match r {
                Some(i) => i < self@.pair_stats.len() && find_pair_row(
                    self@.pair_stats,
                    killer,
                    victim,
                ) == Some(i as int),
                None => find_pair_row(self@.pair_stats, killer, victim) is None,
            },
    {
        let mut i: usize = 0;
        while i < self.pair_stats.len()
            invariant
                0 <= i <= self@.pair_stats.len(),
                self@.pair_stats.len() == self.pair_stats@.len(),
                forall|k: int|
                    0 <= k < i ==> !((#[trigger] self@.pair_stats[k]).killer_id == killer
                        && self@.pair_stats[k].victim_id == victim),
            decreases self.pair_stats@.len() - i,
        {
            if self.pair_stats[i].killer_id == killer && self.pair_stats[i].victim_id == victim {
                proof {
                    assert(pair_key_pred_of(killer, victim)(self@.pair_stats[i as int]));
                    assert forall|k: int| 0 <= k < i implies !pair_key_pred_of(killer, victim)(
                        self@.pair_stats[k],
                    ) by {
                        assert(!(self@.pair_stats[k].killer_id == killer
                            && self@.pair_stats[k].victim_id == victim));
                    }
                    lemma_first_match_at(
                        self@.pair_stats,
                        pair_key_pred_of(killer, victim),
                        0,
                        i as int,
                    );
                }
                return Some(i);
            }
            i = i + 1;
        }
        proof {
            assert forall|k: int| 0 <= k < self@.pair_stats.len() implies !pair_key_pred_of(
                killer,
                victim,
            )(self@.pair_stats[k]) by {
                assert(!(self@.pair_stats[k].killer_id == killer && self@.pair_stats[k].victim_id
                    == victim));
            }
            lemma_first_match_none(self@.pair_stats, pair_key_pred_of(killer, victim), 0);
        }
        None
    }

    /// The index of the player-stats row for this player.
    fn find_stat_idx(&self, pid: u64) -> (r: Option<usize>)
        ensures
            match r {
                Some(i) => i < self@.player_stats.len() && find_stat_row(self@.player_stats, pid)
                    == Some(i as int),
                None => find_stat_row(self@.player_stats, pid) is None,
            },
    {
        let mut i: usize = 0;
        while i < self.player_stats.len()
            invariant
                0 <= i <= self@.player_stats.len(),
                self@.player_stats.len() == self.player_stats@.len(),
                forall|k: int| 0 <= k < i ==> (#[trigger] self@.player_stats[k]).player_id != pid,
            decreases self.player_stats@.len() - i,
        {
            if self.player_stats[i].player_id == pid {
                proof {
                    assert(stat_key_pred_of(pid)(self@.player_stats[i as int]));
                    assert forall|k: int| 0 <= k < i implies !stat_key_pred_of(pid)(
                        self@.player_stats[k],
                    ) by {
                        assert(self@.player_stats[k].player_id != pid);
                    }
                    lemma_first_match_at(self@.player_stats, stat_key_pred_of(pid), 0, i as int);
                }
                return Some(i);
            }
            i = i + 1;
        }
        proof {
            assert forall|k: int| 0 <= k < self@.player_stats.len() implies !stat_key_pred_of(pid)(
                self@.player_stats[k],
            ) by {
                assert(self@.player_stats[k].player_id != pid);
            }
            lemma_first_match_none(self@.player_stats, stat_key_pred_of(pid), 0);
        }
        None
    }

    /// Resolves a username to its player, creating the player under the
    /// given fresh external identity when absent -- the row, the name and a
    /// zero-initialized stats row together.  Fails, writing nothing, iff
    /// the player must be created and the fresh identity is already taken.
    pub fn get_or_create_player(&mut self, username: &String, fresh_rid: &String, now: u64) -> (r:
        Result<u64, RecordError>)
        requires
            wf(old(self)@),
            old(self)@.next_player_id < u64::MAX,
        ensures
            wf(final(self)@),
            ({
                let g = get_or_create_spec(old(self)@, username@, fresh_rid@, now);
                match r {
                    Ok(pid) => g.1 == Some(pid) && final(self)@ == g.0,
                    Err(_) => g.1 is None && final(self)@ == old(self)@,
                }
            }),
    {
        proof {
            lemma_get_or_create_wf(old(self)@, username@, fresh_rid@, now);
        }
        match self.resolve_player(username) {
            Some(pid) => Ok(pid),
            None => {
                match self.find_player_idx(fresh_rid) {
                    Some(_) => Err(RecordError::IdentityConflict),
                    None => {
                        let ghost target = create_player_spec(
                            old(self)@,
                            username@,
                            fresh_rid@,
                            now,
                        );
                        let pid = self.next_player_id;
                        self.players.push(
                            PlayerRow {
                                player_id: pid,
                                reforger_id: fresh_rid.clone(),
                                battleye_guid: None,
                                first_seen: now,
                                last_seen: now,
                            },
                        );
                        self.names.push(
                            NameRow {
                                player_id: pid,
                                username: username.clone(),
                                first_used: now,
                                last_used: now,
                            },
                        );
                        self.player_stats.push(
                            PlayerStatRow {
                                player_id: pid,
                                total_kills: 0,
                                total_deaths: 0,
                                total_team_kills: 0,
                                longest_kill: 0,
                                kd_ratio_hundredths: 0,
                            },
                        );
                        self.next_player_id = pid + 1;
                        proof {
                            assert(self@.players =~= target.players);
                            assert(self@.names =~= target.names);
                            assert(self@.player_stats =~= target.player_stats);
                            assert(self@ =~= target);
                        }
                        Ok(pid)
                    },
                }
            },
        }
    }

    /// Applies one kill between two present players: the immutable record,
    /// then the weapon, pair and player aggregates, then both ratios, in
    /// the order the store would see them.
    #[verifier::rlimit(100)]
    pub fn apply_kill(
        &mut self,
        ev: &crate::kill_parser::KillEvent,
        killer_id: u64,
        victim_id: u64,
        now: u64,
    )
        requires
            wf(old(self)@),
            has_player(old(self)@, killer_id),
            has_player(old(self)@, victim_id),
            old(self)@.kills.len() < u64::MAX,
        ensures
            final(self)@ == apply_kill_spec(old(self)@, killer_id, victim_id, ev@, now),
            wf(final(self)@),
    {
        proof {
            lemma_apply_kill_wf(old(self)@, killer_id, victim_id, ev@, now);
        }
        let ghost m0 = old(self)@;
        let ghost kdata = kill_data_of(ev@, killer_id, victim_id, now);
        let d0: u64 = match ev.distance {
            Some(d) => d,
            None => 0,
        };
        let tk: u64 = if ev.is_team_kill {
            1
        } else {
            0
        };
        let weapon: String = match &ev.weapon {
            Some(w) => w.clone(),
            None => String::new(),
        };
        let kf: String = match &ev.killer_faction {
            Some(s) => s.clone(),
            None => String::new(),
        };
        let vf: String = match &ev.victim_faction {
            Some(s) => s.clone(),
            None => String::new(),
        };
        // the immutable record
        self.kills.push(
            KillRow {
                killer_id,
                victim_id,
                weapon: weapon.clone(),
                distance: ev.distance,
                is_team_kill: ev.is_team_kill,
                killer_faction: kf,
                victim_faction: vf,
                killed_at: now,
            },
        );
        proof {
            assert(self@.kills =~= m0.kills.push(kdata));
        }
        // the per-(player, weapon) aggregate
        let ghost ws_target = upsert_weapon_stat_spec(m0.weapon_stats, killer_id, kdata, now);
        match self.find_weapon_idx(killer_id, &weapon) {
            Some(i) => {
                proof {
                    lemma_first_match_some(
                        m0.weapon_stats,
                        weapon_key_pred_of(killer_id, weapon@),
                        0,
                    );
                    let keyp = killer_weapon_pred_of(killer_id, weapon@);
                    lemma_count_bounds(m0.kills, keyp);
                    lemma_count_bounds(m0.kills, killer_weapon_tk_pred_of(killer_id, weapon@));
                    assert forall|i2: int|
                        0 <= i2 < m0.kills.len() implies 0 <= #[trigger] killer_weapon_dist_of(
                        killer_id,
                        weapon@,
                    )(m0.kills[i2]) <= 0xffffffffffffffff by {}
                    lemma_sum_bounded(
                        m0.kills,
                        killer_weapon_dist_of(killer_id, weapon@),
                        0xffffffffffffffff,
                    );
                    let sd = sum_over(m0.kills, killer_weapon_dist_of(killer_id, weapon@));
                    assert(sd + d0 <= 0xffffffffffffffffffffffffffffffff) by (nonlinear_arith)
                        requires
                            sd <= m0.kills.len() * 0xffffffffffffffff,
                            m0.kills.len() <= 0xfffffffffffffffe,
                            0 <= (d0 as int) <= 0xffffffffffffffff,
                            sd >= 0,
                    ;
                }
                let w2 = self.weapon_stats[i].weapon.clone();
                let prev_kills = self.weapon_stats[i].total_kills;
                let prev_tk = self.weapon_stats[i].total_team_kills;
                let prev_dist = self.weapon_stats[i].total_distance;
                let prev_longest = self.weapon_stats[i].longest_kill;
                self.weapon_stats[i] = WeaponStatRow {
                    player_id: killer_id,
                    weapon: w2,
                    total_kills: prev_kills + 1,
                    total_team_kills: prev_tk + tk,
                    total_distance: prev_dist + d0 as u128,
                    longest_kill: if d0 > prev_longest {
                        d0
                    } else {
                        prev_longest
                    },
                    last_kill: now,
                };
                proof {
                    assert(self@.weapon_stats =~= ws_target);
                }
            },
            None => {
                self.weapon_stats.push(
                    WeaponStatRow {
                        player_id: killer_id,
                        weapon: weapon.clone(),
                        total_kills: 1,
                        total_team_kills: tk,
                        total_distance: d0 as u128,
                        longest_kill: d0,
                        last_kill: now,
                    },
                );
                proof {
                    assert(self@.weapon_stats =~= ws_target);
                }
            },
        }
        // the per-(killer, victim) aggregate
        let ghost ps_target = upsert_pair_stat_spec(m0.pair_stats, killer_id, victim_id, now);
        match self.find_pair_idx(killer_id, victim_id) {
            Some(i) => {
                proof {
                    lemma_first_match_some(
                        m0.pair_stats,
                        pair_key_pred_of(killer_id, victim_id),
                        0,
                    );
                    lemma_count_bounds(m0.kills, pair_pred_of_kill(killer_id, victim_id));
                }
                let prev = self.pair_stats[i].total_kills;
                self.pair_stats[i] = PairStatRow {
                    killer_id,
                    victim_id,
                    total_kills: prev + 1,
                    last_kill: now,
                };
                proof {
                    assert(self@.pair_stats =~= ps_target);
                }
            },
            None => {
                self.pair_stats.push(
                    PairStatRow { killer_id, victim_id, total_kills: 1, last_kill: now },
                );
                proof {
                    assert(self@.pair_stats =~= ps_target);
                }
            },
        }
        // the killer's side of the per-player aggregate
        let ghost ss2 = stat_add_kill_spec(m0.player_stats, killer_id, kdata);
        match self.find_stat_idx(killer_id) {
            Some(i) => {
                proof {
                    lemma_first_match_some(m0.player_stats, stat_key_pred_of(killer_id), 0);
                    lemma_count_bounds(m0.kills, killer_pred_of(killer_id));
                    lemma_count_bounds(m0.kills, killer_tk_pred_of(killer_id));
                }
                let prev_kills = self.player_stats[i].total_kills;
                let prev_deaths = self.player_stats[i].total_deaths;
                let prev_tk = self.player_stats[i].total_team_kills;
                let prev_longest = self.player_stats[i].longest_kill;
                let prev_kd = self.player_stats[i].kd_ratio_hundredths;
                self.player_stats[i] = PlayerStatRow {
                    player_id: killer_id,
                    total_kills: prev_kills + 1,
                    total_deaths: prev_deaths,
                    total_team_kills: prev_tk + tk,
                    longest_kill: if d0 > prev_longest {
                        d0
                    } else {
                        prev_longest
                    },
                    kd_ratio_hundredths: prev_kd,
                };
                proof {
                    assert(self@.player_stats =~= ss2);
                }
            },
            None => {
                self.player_stats.push(
                    PlayerStatRow {
                        player_id: killer_id,
                        total_kills: 1,
                        total_deaths: 0,
                        total_team_kills: tk,
                        longest_kill: d0,
                        kd_ratio_hundredths: 0,
                    },
                );
                proof {
                    assert(self@.player_stats =~= ss2);
                }
            },
        }
        // the victim's side
        let ghost ss3 = stat_add_death_spec(ss2, victim_id);
        match self.find_stat_idx(victim_id) {
            Some(i) => {
                proof {
                    lemma_first_match_some(ss2, stat_key_pred_of(victim_id), 0);
                    assert(ss2[i as int] == self@.player_stats[i as int]);
                    lemma_count_bounds(m0.kills, victim_pred_of(victim_id));
                    if find_stat_row(m0.player_stats, killer_id) is Some {
                        let ik = find_stat_row(m0.player_stats, killer_id)->0;
                        lemma_first_match_some(m0.player_stats, stat_key_pred_of(killer_id), 0);
                        if i as int == ik {
                        } else {
                            assert(ss2[i as int] == m0.player_stats[i as int]);
                        }
                    }
                }
                let prev_deaths = self.player_stats[i].total_deaths;
                let prev_kills = self.player_stats[i].total_kills;
                let prev_tk = self.player_stats[i].total_team_kills;
                let prev_longest = self.player_stats[i].longest_kill;
                let prev_kd = self.player_stats[i].kd_ratio_hundredths;
                self.player_stats[i] = PlayerStatRow {
                    player_id: victim_id,
                    total_kills: prev_kills,
                    total_deaths: prev_deaths + 1,
                    total_team_kills: prev_tk,
                    longest_kill: prev_longest,
                    kd_ratio_hundredths: prev_kd,
                };
                proof {
                    assert(self@.player_stats =~= ss3);
                }
            },
            None => {
                self.player_stats.push(
                    PlayerStatRow {
                        player_id: victim_id,
                        total_kills: 0,
                        total_deaths: 1,
                        total_team_kills: 0,
                        longest_kill: 0,
                        kd_ratio_hundredths: 0,
                    },
                );
                proof {
                    assert(self@.player_stats =~= ss3);
                }
            },
        }
        // both ratios, recomputed from the counters just written
        let ghost ss4 = recompute_kd_spec(ss3, killer_id);
        match self.find_stat_idx(killer_id) {
            Some(i) => {
                proof {
                    lemma_first_match_some(ss3, stat_key_pred_of(killer_id), 0);
                }
                let kd = kd_ratio_hundredths(
                    self.player_stats[i].total_kills,
                    self.player_stats[i].total_deaths,
                );
                let prev_kills = self.player_stats[i].total_kills;
                let prev_deaths = self.player_stats[i].total_deaths;
                let prev_tk = self.player_stats[i].total_team_kills;
                let prev_longest = self.player_stats[i].longest_kill;
                self.player_stats[i] = PlayerStatRow {
                    player_id: killer_id,
                    total_kills: prev_kills,
                    total_deaths: prev_deaths,
                    total_team_kills: prev_tk,
                    longest_kill: prev_longest,
                    kd_ratio_hundredths: kd,
                };
                proof {
                    assert(self@.player_stats =~= ss4);
                }
            },
            None => {
                proof {
                    assert(self@.player_stats =~= ss4);
                }
            },
        }
        let ghost ss5 = recompute_kd_spec(ss4, victim_id);
        match self.find_stat_idx(victim_id) {
            Some(i) => {
                proof {
                    lemma_first_match_some(ss4, stat_key_pred_of(victim_id), 0);
                }
                let kd = kd_ratio_hundredths(
                    self.player_stats[i].total_kills,
                    self.player_stats[i].total_deaths,
                );
                let prev_kills = self.player_stats[i].total_kills;
                let prev_deaths = self.player_stats[i].total_deaths;
                let prev_tk = self.player_stats[i].total_team_kills;
                let prev_longest = self.player_stats[i].longest_kill;
                self.player_stats[i] = PlayerStatRow {
                    player_id: victim_id,
                    total_kills: prev_kills,
                    total_deaths: prev_deaths,
                    total_team_kills: prev_tk,
                    longest_kill: prev_longest,
                    kd_ratio_hundredths: kd,
                };
                proof {
                    assert(self@.player_stats =~= ss5);
                }
            },
            None => {
                proof {
                    assert(self@.player_stats =~= ss5);
                }
            },
        }
        proof {
            assert(self@ =~= apply_kill_spec(m0, killer_id, victim_id, ev@, now));
        }
    }
}


/// Relies on `uuid::Uuid::new_v4` and its `Display` form: a freshly drawn
/// random version-4 UUID, rendered as the 36-character hyphenated string.
/// The value is random, so nothing but its length is assumed.
#[verifier::external_body]
fn fresh_identity() -> (r: String)
    ensures
        r@.len() == 36,
{
    uuid::Uuid::new_v4().to_string()
}

impl StatsRepository {
    /// Records one kill event under two candidate fresh identities, one
    /// per party in case that party is unknown.  All checks run before any
    /// write, so a failure leaves the repository exactly as it was.
    pub fn record_kill_with_identities(
        &mut self,
        ev: &crate::kill_parser::KillEvent,
        killer_rid: &String,
        victim_rid: &String,
        now: u64,
    ) -> (r: Result<(), RecordError>)
        requires
            wf(old(self)@),
            old(self)@.next_player_id <= u64::MAX - 2,
            old(self)@.kills.len() < u64::MAX,
        ensures
            wf(final(self)@),
            ({
                let outcome = record_kill_spec(old(self)@, ev@, killer_rid@, victim_rid@, now);
                match r {
                    Ok(_) => outcome == Some(final(self)@),
                    Err(_) => outcome is None && final(self)@ == old(self)@,
                }
            }),
    {
        let ghost m0 = old(self)@;
        proof {
            lemma_get_or_create_wf(m0, ev@.killer_name, killer_rid@, now);
        }
        let ghost g1 = get_or_create_spec(m0, ev@.killer_name, killer_rid@, now);
        // every check happens before any write
        let killer_resolved = self.resolve_player(&ev.killer_name);
        if killer_resolved.is_none() {
            if self.find_player_idx(killer_rid).is_some() {
                proof {
                    assert(g1.1 is None);
                }
                return Err(RecordError::IdentityConflict);
            }
        }
        proof {
            assert(g1.1 is Some);
            assert(g1.0.next_player_id < u64::MAX);
            lemma_get_or_create_wf(g1.0, ev@.victim_name, victim_rid@, now);
        }
        let ghost g2 = get_or_create_spec(g1.0, ev@.victim_name, victim_rid@, now);
        let victim_resolved = self.resolve_player(&ev.victim_name);
        let same_name = ev.killer_name == ev.victim_name;
        let victim_after = victim_resolved.is_some() || (killer_resolved.is_none() && same_name);
        proof {
            // relate the victim's resolution in g1.0 to what was just read
            if killer_resolved is Some {
                assert(g1.0 == m0);
                assert(resolve_player_spec(g1.0.names, ev@.victim_name) == victim_resolved);
            } else {
                let row = NameData {
                    player_id: m0.next_player_id,
                    username: ev@.killer_name,
                    first_used: now,
                    last_used: now,
                };
                assert(g1.0.names == m0.names.push(row));
                lemma_first_match_push_from(m0.names, username_pred_of(ev@.victim_name), row, 0);
                assert(username_pred_of(ev@.victim_name)(row) == (ev@.killer_name
                    == ev@.victim_name));
                if victim_resolved is Some {
                    lemma_first_match_some(m0.names, username_pred_of(ev@.victim_name), 0);
                    let i = find_username(m0.names, ev@.victim_name)->0;
                    assert(g1.0.names[i] == m0.names[i]);
                    assert(resolve_player_spec(g1.0.names, ev@.victim_name) == victim_resolved);
                } else {
                    if find_username(m0.names, ev@.victim_name) is Some {
                        lemma_first_match_some(m0.names, username_pred_of(ev@.victim_name), 0);
                    }
                    assert(find_username(m0.names, ev@.victim_name) is None);
                    if ev@.killer_name == ev@.victim_name {
                        assert(find_username(g1.0.names, ev@.victim_name) == Some(
                            m0.names.len() as int,
                        ));
                        assert(g1.0.names[m0.names.len() as int] == row);
                        assert(resolve_player_spec(g1.0.names, ev@.victim_name) is Some);
                    } else {
                        assert(resolve_player_spec(g1.0.names, ev@.victim_name) is None);
                    }
                }
            }
            assert(victim_after == (resolve_player_spec(g1.0.names, ev@.victim_name) is Some));
        }
        if !victim_after {
            let mut conflict = self.find_player_idx(victim_rid).is_some();
            if killer_resolved.is_none() && *killer_rid == *victim_rid {
                conflict = true;
            }
            proof {
                if killer_resolved is None {
                    let prow = PlayerData {
                        player_id: m0.next_player_id,
                        reforger_id: killer_rid@,
                        battleye_guid: None,
                        first_seen: now,
                        last_seen: now,
                    };
                    assert(g1.0.players == m0.players.push(prow));
                    lemma_first_match_push_from(m0.players, rid_pred_of(victim_rid@), prow, 0);
                    assert(rid_pred_of(victim_rid@)(prow) == (killer_rid@ == victim_rid@));
                } else {
                    assert(g1.0 == m0);
                }
                assert(conflict == rid_taken(g1.0.players, victim_rid@));
            }
            if conflict {
                proof {
                    assert(g2.1 is None);
                }
                return Err(RecordError::IdentityConflict);
            }
            proof {
                assert(!rid_taken(g1.0.players, victim_rid@));
                assert(g2.1 is Some);
            }
        }
        proof {
            if victim_after {
                assert(resolve_player_spec(g1.0.names, ev@.victim_name) is Some);
            }
            assert(g2.1 is Some);
        }
        let kid = match self.get_or_create_player(&ev.killer_name, killer_rid, now) {
            Ok(id) => id,
            Err(e) => {
                return Err(e);
            },
        };
        let vid = match self.get_or_create_player(&ev.victim_name, victim_rid, now) {
            Ok(id) => id,
            Err(e) => {
                return Err(e);
            },
        };
        proof {
            assert(self@ == g2.0);
            assert(g1.1 == Some(kid));
            assert(g2.1 == Some(vid));
            assert(g2.0.kills == m0.kills);
            assert(has_player(g1.0, kid));
            assert(has_player(g2.0, kid));
            assert(has_player(g2.0, vid));
        }
        self.apply_kill(ev, kid, vid, now);
        Ok(())
    }

    /// Records one kill event: resolves or creates both parties, appends
    /// the immutable record, and updates every aggregate, as one
    /// all-or-nothing unit.  Both parties' candidate identities are drawn
    /// fresh; when both usernames already resolve, no randomness is
    /// involved and the call always succeeds.
    pub fn record_kill(&mut self, ev: &crate::kill_parser::KillEvent, now: u64) -> (r: Result<
        (),
        RecordError,
    >)
        requires
            wf(old(self)@),
            old(self)@.next_player_id <= u64::MAX - 2,
            old(self)@.kills.len() < u64::MAX,
        ensures
            wf(final(self)@),
            ({
                match r {
                    Ok(_) => exists|rk: Seq<char>, rv: Seq<char>|
                        record_kill_spec(old(self)@, ev@, rk, rv, now) == Some(final(self)@),
                    Err(_) => final(self)@ == old(self)@,
                }
            }),
            ({
                let kr = resolve_player_spec(old(self)@.names, ev@.killer_name);
                let vr = resolve_player_spec(old(self)@.names, ev@.victim_name);
                (kr is Some && vr is Some) ==> (r is Ok && final(self)@ == apply_kill_spec(
                    old(self)@,
                    kr->0,
                    vr->0,
                    ev@,
                    now,
                ))
            }),
    {
        let rk = fresh_identity();
        let rv = fresh_identity();
        let r = self.record_kill_with_identities(ev, &rk, &rv, now);
        proof {
            if r is Ok {
                assert(record_kill_spec(old(self)@, ev@, rk@, rv@, now) == Some(self@));
            }
        }
        r
    }

    /// How many players the repository holds.
    pub fn player_count(&self) -> (r: usize)
        ensures
            r == self@.players.len(),
    {
        self.players.len()
    }

    /// How many kill records the repository holds.
    pub fn kill_count(&self) -> (r: usize)
        ensures
            r == self@.kills.len(),
    {
        self.kills.len()
    }

    /// The id the next created player will get.
    pub fn next_id(&self) -> (r: u64)
        ensures
            r == self@.next_player_id,
    {
        self.next_player_id
    }

    /// The player row stored under this external identity, if any.
    pub fn player_by_identity(&self, rid: &String) -> (r: Option<&PlayerRow>)
        ensures
            match r {
                Some(row) => find_rid(self@.players, rid@) is Some && row@ == self@.players[find_rid(
                    self@.players,
                    rid@,
                )->0],
                None => find_rid(self@.players, rid@) is None,
            },
    {
        match self.find_player_idx(rid) {
            Some(i) => Some(&self.players[i]),
            None => None,
        }
    }

    /// The per-player aggregate row, if any.
    pub fn player_stat(&self, pid: u64) -> (r: Option<&PlayerStatRow>)
        ensures
            match r {
                Some(row) => find_stat_row(self@.player_stats, pid) is Some && row@
                    == self@.player_stats[find_stat_row(self@.player_stats, pid)->0],
                None => find_stat_row(self@.player_stats, pid) is None,
            },
    {
        match self.find_stat_idx(pid) {
            Some(i) => Some(&self.player_stats[i]),
            None => None,
        }
    }

    /// The per-(player, weapon) aggregate row, if any.
    pub fn weapon_stat(&self, pid: u64, weapon: &String) -> (r: Option<&WeaponStatRow>)
        ensures
            match r {
                Some(row) => find_weapon_row(self@.weapon_stats, pid, weapon@) is Some && row@
                    == self@.weapon_stats[find_weapon_row(self@.weapon_stats, pid, weapon@)->0],
                None => find_weapon_row(self@.weapon_stats, pid, weapon@) is None,
            },
    {
        match self.find_weapon_idx(pid, weapon) {
            Some(i) => Some(&self.weapon_stats[i]),
            None => None,
        }
    }

    /// The per-(killer, victim) aggregate row, if any.
    pub fn pair_stat(&self, killer: u64, victim: u64) -> (r: Option<&PairStatRow>)
        ensures
            match r {
                Some(row) => find_pair_row(self@.pair_stats, killer, victim) is Some && row@
                    == self@.pair_stats[find_pair_row(self@.pair_stats, killer, victim)->0],
                None => find_pair_row(self@.pair_stats, killer, victim) is None,
            },
    {
        match self.find_pair_idx(killer, victim) {
            Some(i) => Some(&self.pair_stats[i]),
            None => None,
        }
    }


    /// The index of the player row carrying this internal id.
    fn find_player_id_idx(&self, pid: u64) -> (r: Option<usize>)
        ensures
            match r {
                Some(i) => i < self@.players.len() && first_match(
                    self@.players,
                    player_id_pred_of(pid),
                    0,
                ) == Some(i as int),
                None => first_match(self@.players, player_id_pred_of(pid), 0) is None,
            },
    {
        let mut i: usize = 0;
        while i < self.players.len()
            invariant
                0 <= i <= self@.players.len(),
                self@.players.len() == self.players@.len(),
                forall|k: int| 0 <= k < i ==> (#[trigger] self@.players[k]).player_id != pid,
            decreases self.players@.len() - i,
        {
            if self.players[i].player_id == pid {
                proof {
                    assert(player_id_pred_of(pid)(self@.players[i as int]));
                    assert forall|k: int| 0 <= k < i implies !player_id_pred_of(pid)(
                        self@.players[k],
                    ) by {
                        assert(self@.players[k].player_id != pid);
                    }
                    lemma_first_match_at(self@.players, player_id_pred_of(pid), 0, i as int);
                }
                return Some(i);
            }
            i = i + 1;
        }
        proof {
            assert forall|k: int| 0 <= k < self@.players.len() implies !player_id_pred_of(pid)(
                self@.players[k],
            ) by {
                assert(self@.players[k].player_id != pid);
            }
            lemma_first_match_none(self@.players, player_id_pred_of(pid), 0);
        }
        None
    }

    /// The player row with this internal id, if any.
    pub fn player_row(&self, pid: u64) -> (r: Option<&PlayerRow>)
        ensures
            match r {
                Some(row) => first_match(self@.players, player_id_pred_of(pid), 0) is Some && row@
                    == self@.players[first_match(self@.players, player_id_pred_of(pid), 0)->0],
                None => first_match(self@.players, player_id_pred_of(pid), 0) is None,
            },
    {
        match self.find_player_id_idx(pid) {
            Some(i) => Some(&self.players[i]),
            None => None,
        }
    }

    /// The connection record keyed by (player, ip), if any.
    pub fn connection_record(&self, pid: u64, ip: &String) -> (r: Option<&ConnectionRow>)
        ensures
            match r {
                Some(row) => find_conn_row(self@.connections, pid, ip@) is Some && row@
                    == self@.connections[find_conn_row(self@.connections, pid, ip@)->0],
                None => find_conn_row(self@.connections, pid, ip@) is None,
            },
    {
        match self.find_conn_row_idx(pid, ip) {
            Some(i) => Some(&self.connections[i]),
            None => None,
        }
    }
}


// ---------------------------------------------------------------------------
// Laws: the repository's headline guarantees, stated on their own.
// ---------------------------------------------------------------------------
/// Law: a player's stored totals are exactly the counts over the immutable
/// kill log -- recording N kills by one player leaves total_kills at N,
/// and recording the same logical event twice counts it twice, by design:
/// each log line is one real kill.
pub proof fn lemma_totals_count_kills(m: RepoModel, pid: u64)
    requires
        wf(m),
        find_stat_row(m.player_stats, pid) is Some,
    ensures
        ({
            let r = m.player_stats[find_stat_row(m.player_stats, pid)->0];
            &&& r.player_id == pid
            &&& r.total_kills == count_matching(m.kills, killer_pred_of(pid))
            &&& r.total_deaths == count_matching(m.kills, victim_pred_of(pid))
            &&& r.total_team_kills == count_matching(m.kills, killer_tk_pred_of(pid))
        }),
{
    lemma_first_match_some(m.player_stats, stat_key_pred_of(pid), 0);
}

/// Law: one applied kill raises the killer's total_kills and the victim's
/// total_deaths by exactly one.
pub proof fn lemma_apply_kill_increments(
    m: RepoModel,
    kid: u64,
    vid: u64,
    ev: crate::kill_parser::KillEventModel,
    now: u64,
)
    requires
        wf(m),
        has_player(m, kid),
        has_player(m, vid),
        m.kills.len() < u64::MAX,
    ensures
        ({
            let m2 = apply_kill_spec(m, kid, vid, ev, now);
            &&& find_stat_row(m.player_stats, kid) is Some
            &&& find_stat_row(m.player_stats, vid) is Some
            &&& find_stat_row(m2.player_stats, kid) == find_stat_row(m.player_stats, kid)
            &&& find_stat_row(m2.player_stats, vid) == find_stat_row(m.player_stats, vid)
            &&& m2.player_stats[find_stat_row(m.player_stats, kid)->0].total_kills
                == m.player_stats[find_stat_row(m.player_stats, kid)->0].total_kills + 1
            &&& m2.player_stats[find_stat_row(m.player_stats, vid)->0].total_deaths
                == m.player_stats[find_stat_row(m.player_stats, vid)->0].total_deaths + 1
        }),
{
    let k = kill_data_of(ev, kid, vid, now);
    let m2 = apply_kill_spec(m, kid, vid, ev, now);
    lemma_apply_kill_wf(m, kid, vid, ev, now);
    lemma_player_stats_after_kill(m, kid, vid, k, now);
    assert(find_stat_row(m.player_stats, kid) is Some) by {
        let ip = choose|i: int| 0 <= i < m.players.len() && #[trigger] m.players[i].player_id == kid;
        assert(find_stat_row(m.player_stats, m.players[ip].player_id) is Some);
    }
    assert(find_stat_row(m.player_stats, vid) is Some) by {
        let ip = choose|i: int| 0 <= i < m.players.len() && #[trigger] m.players[i].player_id == vid;
        assert(find_stat_row(m.player_stats, m.players[ip].player_id) is Some);
    }
    assert forall|j: int|
        0 <= j < m.player_stats.len() implies #[trigger] stat_key_pred_of(kid)(m2.player_stats[j])
        == stat_key_pred_of(kid)(m.player_stats[j]) by {}
    lemma_first_match_equiv(m.player_stats, m2.player_stats, stat_key_pred_of(kid), 0);
    assert forall|j: int|
        0 <= j < m.player_stats.len() implies #[trigger] stat_key_pred_of(vid)(m2.player_stats[j])
        == stat_key_pred_of(vid)(m.player_stats[j]) by {}
    lemma_first_match_equiv(m.player_stats, m2.player_stats, stat_key_pred_of(vid), 0);
    lemma_first_match_some(m.player_stats, stat_key_pred_of(kid), 0);
    lemma_first_match_some(m.player_stats, stat_key_pred_of(vid), 0);
    lemma_totals_count_kills(m, kid);
    lemma_totals_count_kills(m, vid);
    lemma_count_push(m.kills, killer_pred_of(kid), k);
    lemma_count_push(m.kills, victim_pred_of(vid), k);
}

/// Law: the stored kill/death ratio is always the one recomputed from the
/// stored counters -- total_kills (in hundredths) when total_deaths is
/// zero, else their truncated quotient.
pub proof fn lemma_kd_ratio_consistent(m: RepoModel, pid: u64)
    requires
        wf(m),
        find_stat_row(m.player_stats, pid) is Some,
    ensures
        ({
            let r = m.player_stats[find_stat_row(m.player_stats, pid)->0];
            r.kd_ratio_hundredths == kd_ratio_spec(r.total_kills, r.total_deaths)
        }),
{
    lemma_first_match_some(m.player_stats, stat_key_pred_of(pid), 0);
}

/// Law: a weapon row's longest kill is the maximum matching distance, so
/// it is at least the distance of every kill attributed to that player
/// and weapon.
pub proof fn lemma_longest_kill_dominates(m: RepoModel, i: int, j: int)
    requires
        wf(m),
        0 <= i < m.weapon_stats.len(),
        0 <= j < m.kills.len(),
        m.kills[j].killer_id == m.weapon_stats[i].player_id,
        m.kills[j].weapon == m.weapon_stats[i].weapon,
    ensures
        m.weapon_stats[i].longest_kill >= dist_or_zero(m.kills[j]),
{
    let r = m.weapon_stats[i];
    lemma_max_ge_each(m.kills, killer_weapon_dist_of(r.player_id, r.weapon), j);
}

/// Law: one applied kill never lowers an existing weapon row's longest
/// kill.
pub proof fn lemma_longest_kill_monotone(
    m: RepoModel,
    kid: u64,
    vid: u64,
    ev: crate::kill_parser::KillEventModel,
    now: u64,
    i: int,
)
    requires
        wf(m),
        has_player(m, kid),
        has_player(m, vid),
        m.kills.len() < u64::MAX,
        0 <= i < m.weapon_stats.len(),
    ensures
        ({
            let m2 = apply_kill_spec(m, kid, vid, ev, now);
            &&& m2.weapon_stats.len() >= m.weapon_stats.len()
            &&& m2.weapon_stats[i].player_id == m.weapon_stats[i].player_id
            &&& m2.weapon_stats[i].weapon == m.weapon_stats[i].weapon
            &&& m2.weapon_stats[i].longest_kill >= m.weapon_stats[i].longest_kill
        }),
{
    let k = kill_data_of(ev, kid, vid, now);
    let ws = m.weapon_stats;
    match find_weapon_row(ws, kid, k.weapon) {
        Some(idx) => {
            lemma_first_match_some(ws, weapon_key_pred_of(kid, k.weapon), 0);
        },
        None => {},
    }
}

} // verus!
