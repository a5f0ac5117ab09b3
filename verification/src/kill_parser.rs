//! The kill-event parser: one log line in, one structured event or nothing
//! out.
//!
//! A line is an event iff it carries the `PLAYER_KILLED:` marker; the text
//! after the marker is a `", "`-separated list of `key=value` pairs, values
//! optionally single-quoted.  `killerName` and `victimName` are required,
//! everything else optional, unknown keys are ignored, and when a key repeats
//! its last occurrence wins, as the scan order has it.

use crate::decimal::{decimal_spec, parse_distance};
use crate::text::{
    contains_seq, find_char, lemma_find_char_some, lemma_find_from_some, opt_view,
    spec_find_char_from, spec_find_from, split_spec, split_str, str_eq, trim, trim_spec, unquote,
    unquote_spec,
};
use vstd::prelude::*;

verus! {

/// A structured kill event.  `distance` is in ten-thousandths of a meter.
pub struct KillEvent {
    pub killer_name: String,
    pub victim_name: String,
    pub weapon: Option<String>,
    pub distance: Option<u64>,
    pub is_team_kill: bool,
    pub killer_faction: Option<String>,
    pub victim_faction: Option<String>,
}

/// The mathematical shadow of `KillEvent`.
pub ghost struct KillEventModel {
    pub killer_name: Seq<char>,
    pub victim_name: Seq<char>,
    pub weapon: Option<Seq<char>>,
    pub distance: Option<u64>,
    pub is_team_kill: bool,
    pub killer_faction: Option<Seq<char>>,
    pub victim_faction: Option<Seq<char>>,
}

impl View for KillEvent {
    type V = KillEventModel;

    open spec fn view(&self) -> KillEventModel {
        KillEventModel {
            killer_name: self.killer_name@,
            victim_name: self.victim_name@,
            weapon: opt_view(self.weapon),
            distance: self.distance,
            is_team_kill: self.is_team_kill,
            killer_faction: opt_view(self.killer_faction),
            victim_faction: opt_view(self.victim_faction),
        }
    }
}

/// The marker that announces a kill event.
pub open spec fn kill_marker() -> Seq<char> {
    "PLAYER_KILLED:"@
}

/// The separator between `key=value` pairs.
pub open spec fn pair_sep() -> Seq<char> {
    ", "@
}

/// An ASCII upper-case letter.
pub open spec fn is_upper(c: char) -> bool {
    'A' <= c && c <= 'Z'
}

/// The two characters are the same letter up to ASCII case.
pub open spec fn same_letter(a: char, b: char) -> bool {
    a == b || (is_upper(a) && b as u32 == a as u32 + 32) || (is_upper(b) && a as u32 == b as u32
        + 32)
}

/// Equality up to ASCII case.
pub open spec fn eq_ignore_case_spec(s: Seq<char>, t: Seq<char>) -> bool {
    s.len() == t.len() && forall|i: int| 0 <= i < s.len() ==> same_letter(s[i], t[i])
}

/// A boolean value of the log format: `true` in any case, or `1`.
pub open spec fn truthy_spec(s: Seq<char>) -> bool {
    eq_ignore_case_spec(s, "true"@) || s == "1"@
}

/// The fixed faction table: internal codes map to short display codes,
/// anything else passes through unchanged.
pub open spec fn normalize_faction_spec(s: Seq<char>) -> Seq<char> {
    if s == "#WCS-Faction_NATO"@ {
        "NATO"@
    } else if s == "#WCS-Faction_RU"@ {
        "RU"@
    } else {
        s
    }
}

/// The parser's field slots while it walks the `key=value` pairs.
pub ghost struct FieldState {
    pub killer_name: Option<Seq<char>>,
    pub victim_name: Option<Seq<char>>,
    pub weapon: Option<Seq<char>>,
    pub distance: Option<u64>,
    pub is_team_kill: bool,
    pub killer_faction: Option<Seq<char>>,
    pub victim_faction: Option<Seq<char>>,
}

/// All slots empty, team kill defaulted to false.
pub open spec fn empty_fields() -> FieldState {
    FieldState {
        killer_name: None,
        victim_name: None,
        weapon: None,
        distance: None,
        is_team_kill: false,
        killer_faction: None,
        victim_faction: None,
    }
}

/// One `key=value` pair applied to the slots.  A segment without `=` changes
/// nothing; an unknown key changes nothing.
pub open spec fn apply_pair(st: FieldState, seg: Seq<char>) -> FieldState {
    match spec_find_char_from(seg, '=', 0) {
        None => st,
        Some(i) => if 0 <= i < seg.len() {
            let key = trim_spec(seg.subrange(0, i));
            let val = unquote_spec(trim_spec(seg.subrange(i + 1, seg.len() as int)));
            if key == "killerName"@ {
                FieldState { killer_name: Some(val), ..st }
            } else if key == "victimName"@ {
                FieldState { victim_name: Some(val), ..st }
            } else if key == "weaponName"@ {
                FieldState { weapon: Some(val), ..st }
            } else if key == "killDistance"@ {
                FieldState { distance: decimal_spec(val), ..st }
            } else if key == "isTeamKill"@ {
                FieldState { is_team_kill: truthy_spec(val), ..st }
            } else if key == "killerFaction"@ {
                FieldState { killer_faction: Some(normalize_faction_spec(val)), ..st }
            } else if key == "victimFaction"@ {
                FieldState { victim_faction: Some(normalize_faction_spec(val)), ..st }
            } else {
                st
            }
        } else {
            st
        },
    }
}

/// The pairs applied in order, earlier to later.
pub open spec fn apply_pairs(st: FieldState, segs: Seq<Seq<char>>) -> FieldState
    decreases segs.len(),
{
    if segs.len() == 0 {
        st
    } else {
        apply_pairs(apply_pair(st, segs.first()), segs.drop_first())
    }
}

/// What a line parses to: the marker found, the tail split into pairs, the
/// pairs folded into the slots, and the event built iff both names are set.
pub open spec fn parse_kill_spec(line: Seq<char>) -> Option<KillEventModel> {
    match spec_find_from(line, kill_marker(), 0) {
        None => None,
        Some(i) => if 0 <= i && i + kill_marker().len() <= line.len() {
            let data = line.subrange(i + kill_marker().len(), line.len() as int);
            let st = apply_pairs(empty_fields(), split_spec(data, pair_sep()));
            if st.killer_name is Some && st.victim_name is Some {
                Some(
                    KillEventModel {
                        killer_name: st.killer_name->0,
                        victim_name: st.victim_name->0,
                        weapon: st.weapon,
                        distance: st.distance,
                        is_team_kill: st.is_team_kill,
                        killer_faction: st.killer_faction,
                        victim_faction: st.victim_faction,
                    },
                )
            } else {
                None
            }
        } else {
            None
        },
    }
}

/// Decides `truthy_spec` on a value.
fn is_truthy(val: &str) -> (r: bool)
    ensures
        r == truthy_spec(val@),
{
    if str_eq(val, "1") {
        return true;
    }
    let t = "true";
    proof {
        reveal_strlit("true");
    }
    let n = val.unicode_len();
    if n != 4 {
        return false;
    }
    let mut i: usize = 0;
    while i < 4
        invariant
            val@.len() == 4,
            t@ == "true"@,
            t@.len() == 4,
            val@ != "1"@,
            0 <= i <= 4,
            forall|k: int| 0 <= k < i ==> same_letter(val@[k], t@[k]),
        decreases 4 - i,
    {
        let a = val.get_char(i);
        let b = t.get_char(i);
        let okc = a == b || (('A' <= a && a <= 'Z') && b as u32 == a as u32 + 32) || (('A' <= b
            && b <= 'Z') && a as u32 == b as u32 + 32);
        if !okc {
            return false;
        }
        i = i + 1;
    }
    true
}

/// Maps an internal faction code to its short display code; unmapped codes
/// pass through unchanged, the empty string included.
pub fn normalize_faction(value: &str) -> (r: &str)
    ensures
        r@ == normalize_faction_spec(value@),
{
    if str_eq(value, "#WCS-Faction_NATO") {
        "NATO"
    } else if str_eq(value, "#WCS-Faction_RU") {
        "RU"
    } else {
        value
    }
}

/// Parses one log line into a kill event, or nothing when the line carries no
/// `PLAYER_KILLED:` marker or lacks a required name.
pub fn parse_kill_line(line: &str) -> (r: Option<KillEvent>)
    ensures
        match r {
            Some(ev) => parse_kill_spec(line@) == Some(ev@),
            None => parse_kill_spec(line@) is None,
        },
{
    let marker = "PLAYER_KILLED:";
    let mstart = match crate::text::find_str(line, marker) {
        None => {
            return None;
        },
        Some(i) => i,
    };
    proof {
        lemma_find_from_some(line@, kill_marker(), 0);
    }
    let mlen = marker.unicode_len();
    let n = line.unicode_len();
    let data = line.substring_char(mstart + mlen, n);
    proof {
        reveal_strlit(", ");
    }
    let segs = split_str(data, ", ");
    let ghost gsegs = split_spec(data@, pair_sep());
    let mut killer_name: Option<String> = None;
    let mut victim_name: Option<String> = None;
    let mut weapon: Option<String> = None;
    let mut distance: Option<u64> = None;
    let mut is_team_kill: bool = false;
    let mut killer_faction: Option<String> = None;
    let mut victim_faction: Option<String> = None;
    let ghost mut st = empty_fields();
    let mut k: usize = 0;
    proof {
        assert(gsegs.skip(0) =~= gsegs);
    }
    while k < segs.len()
        invariant
            segs@.map_values(|t: String| t@) == gsegs,
            0 <= k <= segs.len(),
            apply_pairs(st, gsegs.skip(k as int)) == apply_pairs(empty_fields(), gsegs),
            st.killer_name == opt_view(killer_name),
            st.victim_name == opt_view(victim_name),
            st.weapon == opt_view(weapon),
            st.distance == distance,
            st.is_team_kill == is_team_kill,
            st.killer_faction == opt_view(killer_faction),
            st.victim_faction == opt_view(victim_faction),
        decreases segs.len() - k,
    {
        let seg: &String = &segs[k];
        proof {
            assert(seg@ == gsegs[k as int]);
        }
        match find_char(seg.as_str(), '=') {
            None => {},
            Some(eq_pos) => {
                proof {
                    lemma_find_char_some(seg@, '=', 0);
                }
                let slen = seg.as_str().unicode_len();
                let key = trim(seg.as_str().substring_char(0, eq_pos));
                let val = unquote(trim(seg.as_str().substring_char(eq_pos + 1, slen)));
                if str_eq(key, "killerName") {
                    killer_name = Some(val.to_owned());
                } else if str_eq(key, "victimName") {
                    victim_name = Some(val.to_owned());
                } else if str_eq(key, "weaponName") {
                    weapon = Some(val.to_owned());
                } else if str_eq(key, "killDistance") {
                    distance = parse_distance(val);
                } else if str_eq(key, "isTeamKill") {
                    is_team_kill = is_truthy(val);
                } else if str_eq(key, "killerFaction") {
                    killer_faction = Some(normalize_faction(val).to_owned());
                } else if str_eq(key, "victimFaction") {
                    victim_faction = Some(normalize_faction(val).to_owned());
                }
            },
        }
        proof {
            let ghost prev = st;
            st = apply_pair(st, gsegs[k as int]);
            assert(gsegs.skip(k as int).first() == gsegs[k as int]);
            assert(gsegs.skip(k as int).drop_first() =~= gsegs.skip(k as int + 1));
            assert(apply_pairs(prev, gsegs.skip(k as int)) == apply_pairs(
                st,
                gsegs.skip(k as int + 1),
            ));
        }
        k = k + 1;
    }
    proof {
        assert(gsegs.skip(segs@.len() as int) =~= Seq::<Seq<char>>::empty());
        assert(st == apply_pairs(empty_fields(), gsegs));
    }
    let kn = match killer_name {
        None => {
            return None;
        },
        Some(s) => s,
    };
    let vn = match victim_name {
        None => {
            return None;
        },
        Some(s) => s,
    };
    Some(
        KillEvent {
            killer_name: kn,
            victim_name: vn,
            weapon,
            distance,
            is_team_kill,
            killer_faction,
            victim_faction,
        },
    )
}


/// The kill events of a batch of lines, in order.
pub open spec fn kill_events_spec(lines: Seq<Seq<char>>) -> Seq<KillEventModel>
    decreases lines.len(),
{
    if lines.len() == 0 {
        Seq::empty()
    } else {
        let rest = kill_events_spec(lines.drop_first());
        match parse_kill_spec(lines.first()) {
            Some(ev) => seq![ev] + rest,
            None => rest,
        }
    }
}

/// Scans one poll cycle's batch of lines for kill events.
pub fn collect_kill_events(lines: &Vec<String>) -> (out: Vec<KillEvent>)
    ensures
        out@.map_values(|e: KillEvent| e@) == kill_events_spec(lines@.map_values(|s: String| s@)),
{
    let ghost lviews = lines@.map_values(|s: String| s@);
    let mut out: Vec<KillEvent> = Vec::new();
    let mut k: usize = 0;
    proof {
        assert(lviews.skip(0) =~= lviews);
    }
    while k < lines.len()
        invariant
            lviews == lines@.map_values(|s: String| s@),
            0 <= k <= lines.len(),
            out@.map_values(|e: KillEvent| e@) + kill_events_spec(lviews.skip(k as int))
                =~= kill_events_spec(lviews),
        decreases lines.len() - k,
    {
        let line: &String = &lines[k];
        proof {
            assert(line@ == lviews[k as int]);
            assert(lviews.skip(k as int).first() == lviews[k as int]);
            assert(lviews.skip(k as int).drop_first() =~= lviews.skip(k as int + 1));
        }
        match parse_kill_line(line.as_str()) {
            Some(ev) => {
                let ghost prev = out@;
                out.push(ev);
                proof {
                    assert(out@.map_values(|e: KillEvent| e@) =~= prev.map_values(
                        |e: KillEvent| e@,
                    ).push(out@.last()@));
                }
            },
            None => {},
        }
        k = k + 1;
    }
    proof {
        assert(lviews.skip(lines@.len() as int) =~= Seq::<Seq<char>>::empty());
    }
    out
}

/// A line without the marker is never an event.
pub proof fn lemma_no_marker_no_event(line: Seq<char>)
    requires
        !contains_seq(line, kill_marker()),
    ensures
        parse_kill_spec(line) is None,
{
}

} // verus!
