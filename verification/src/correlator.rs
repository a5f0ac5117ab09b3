//! The connection correlator: a stateful scanner that reassembles one
//! logical "player connected" event from three unrelated log lines.
//!
//! Per line, in order: an `authenticating` line fills the identity and IP
//! slots, an `Authenticated player` line fills the external-identity and
//! username slots, and a `BE GUID:` line emits one completed event iff all
//! four slots are filled, clearing them; otherwise it is ignored and the
//! slots stay.  The slots persist across batches and only clear on emission.

use crate::text::{
    contains_seq, contains_str, find_str, find_str_from, is_digit, is_space, is_space_char,
    is_word, is_word_char, lemma_find_from_some, occurs_at, opt_view, spec_find_from,
};
use vstd::prelude::*;

verus! {

/// One completed connection event.
pub struct PlayerConnection {
    pub identity: String,
    pub ip_address: String,
    pub reforger_id: String,
    pub username: String,
    pub battleye_guid: String,
}

/// The mathematical shadow of `PlayerConnection`.
pub ghost struct ConnectionModel {
    pub identity: Seq<char>,
    pub ip_address: Seq<char>,
    pub reforger_id: Seq<char>,
    pub username: Seq<char>,
    pub battleye_guid: Seq<char>,
}

impl View for PlayerConnection {
    type V = ConnectionModel;

    open spec fn view(&self) -> ConnectionModel {
        ConnectionModel {
            identity: self.identity@,
            ip_address: self.ip_address@,
            reforger_id: self.reforger_id@,
            username: self.username@,
            battleye_guid: self.battleye_guid@,
        }
    }
}

/// The word-character predicate, as a shared value.
pub open spec fn word_pred() -> spec_fn(char) -> bool {
    |c: char| is_word(c)
}

/// Characters of a dotted IP address.
pub open spec fn is_ip_char(c: char) -> bool {
    is_digit(c) || c == '.'
}

pub open spec fn ip_pred() -> spec_fn(char) -> bool {
    |c: char| is_ip_char(c)
}

/// Characters of an external identity token: lower-case hex and dashes.
pub open spec fn is_rid_char(c: char) -> bool {
    ('a' <= c && c <= 'f') || is_digit(c) || c == '-'
}

pub open spec fn rid_pred() -> spec_fn(char) -> bool {
    |c: char| is_rid_char(c)
}

pub open spec fn space_run_pred() -> spec_fn(char) -> bool {
    |c: char| is_space(c)
}

/// The end of the maximal run of characters satisfying `p` that starts at
/// `i`.
pub open spec fn run_end(s: Seq<char>, i: int, p: spec_fn(char) -> bool) -> int
    decreases s.len() - i,
{
    if i < s.len() && p(s[i]) {
        run_end(s, i + 1, p)
    } else {
        i
    }
}

pub proof fn lemma_run_end_at(s: Seq<char>, i: int, k: int, p: spec_fn(char) -> bool)
    requires
        0 <= i <= k <= s.len(),
        forall|j: int| i <= j < k ==> p(s[j]),
        k == s.len() || !p(s[k]),
    ensures
        run_end(s, i, p) == k,
    decreases k - i,
{
    if i < k {
        lemma_run_end_at(s, i + 1, k, p);
    }
}

/// The identity-and-address pattern of an `authenticating` line: the first
/// `identity=` followed by a nonempty word run, then the first `address=`
/// after it followed by a nonempty run of digits and dots.
pub open spec fn connecting_match(line: Seq<char>) -> Option<(Seq<char>, Seq<char>)> {
    match spec_find_from(line, "identity="@, 0) {
        None => None,
        Some(i) => if 0 <= i && i + "identity="@.len() <= line.len() {
            let a = i + "identity="@.len();
            let b = run_end(line, a, word_pred());
            if b <= a {
                None
            } else {
                match spec_find_from(line, "address="@, b) {
                    None => None,
                    Some(j) => if b <= j && j + "address="@.len() <= line.len() {
                        let c = j + "address="@.len();
                        let d = run_end(line, c, ip_pred());
                        if d <= c {
                            None
                        } else {
                            Some((line.subrange(a, b), line.subrange(c, d)))
                        }
                    } else {
                        None
                    },
                }
            }
        } else {
            None
        },
    }
}

/// The identity-string-and-name pattern of an `Authenticated player` line:
/// the first `identityId=` followed by a nonempty run of hex and dashes,
/// then at least one whitespace character, then `name=` and a nonempty word
/// run.
pub open spec fn authenticated_match(line: Seq<char>) -> Option<(Seq<char>, Seq<char>)> {
    match spec_find_from(line, "identityId="@, 0) {
        None => None,
        Some(i) => if 0 <= i && i + "identityId="@.len() <= line.len() {
            let a = i + "identityId="@.len();
            let b = run_end(line, a, rid_pred());
            if b <= a {
                None
            } else {
                let c = run_end(line, b, space_run_pred());
                if c <= b {
                    None
                } else if occurs_at(line, "name="@, c) {
                    let d = c + "name="@.len();
                    let e = run_end(line, d, word_pred());
                    if e <= d {
                        None
                    } else {
                        Some((line.subrange(a, b), line.subrange(d, e)))
                    }
                } else {
                    None
                }
            }
        } else {
            None
        },
    }
}

/// The GUID pattern of a `BE GUID:` line: the marker, at least one
/// whitespace character, then a nonempty word run.
pub open spec fn guid_match(line: Seq<char>) -> Option<Seq<char>> {
    match spec_find_from(line, "BE GUID:"@, 0) {
        None => None,
        Some(i) => if 0 <= i && i + "BE GUID:"@.len() <= line.len() {
            let a = i + "BE GUID:"@.len();
            let b = run_end(line, a, space_run_pred());
            if b <= a {
                None
            } else {
                let c = run_end(line, b, word_pred());
                if c <= b {
                    None
                } else {
                    Some(line.subrange(b, c))
                }
            }
        } else {
            None
        },
    }
}

/// The four slots of an in-progress correlation.
pub ghost struct CorrelatorModel {
    pub identity: Option<Seq<char>>,
    pub ip_address: Option<Seq<char>>,
    pub reforger_id: Option<Seq<char>>,
    pub username: Option<Seq<char>>,
}

/// All slots empty.
pub open spec fn empty_slots() -> CorrelatorModel {
    CorrelatorModel { identity: None, ip_address: None, reforger_id: None, username: None }
}

/// One line applied to the slots: the three markers checked in order, an
/// event emitted iff a GUID arrives while every slot is filled.
pub open spec fn step_spec(st: CorrelatorModel, line: Seq<char>) -> (CorrelatorModel, Option<
    ConnectionModel,
>) {
    let st1 = if contains_seq(line, "authenticating"@) {
        match connecting_match(line) {
            Some(p) => CorrelatorModel { identity: Some(p.0), ip_address: Some(p.1), ..st },
            None => st,
        }
    } else {
        st
    };
    let st2 = if contains_seq(line, "Authenticated player"@) {
        match authenticated_match(line) {
            Some(p) => CorrelatorModel { reforger_id: Some(p.0), username: Some(p.1), ..st1 },
            None => st1,
        }
    } else {
        st1
    };
    if contains_seq(line, "BE GUID:"@) {
        match guid_match(line) {
            Some(g) => if st2.identity is Some && st2.ip_address is Some && st2.reforger_id
                is Some && st2.username is Some {
                (
                    empty_slots(),
                    Some(
                        ConnectionModel {
                            identity: st2.identity->0,
                            ip_address: st2.ip_address->0,
                            reforger_id: st2.reforger_id->0,
                            username: st2.username->0,
                            battleye_guid: g,
                        },
                    ),
                )
            } else {
                (st2, None)
            },
            None => (st2, None),
        }
    } else {
        (st2, None)
    }
}

/// The events of an emitted option, as a sequence.
pub open spec fn opt_seq(o: Option<ConnectionModel>) -> Seq<ConnectionModel> {
    match o {
        Some(c) => seq![c],
        None => Seq::empty(),
    }
}

/// A batch of lines applied in order: the final slots and every emitted
/// event.
pub open spec fn scan_spec(st: CorrelatorModel, lines: Seq<Seq<char>>) -> (CorrelatorModel, Seq<
    ConnectionModel,
>)
    decreases lines.len(),
{
    if lines.len() == 0 {
        (st, Seq::empty())
    } else {
        let first_step = step_spec(st, lines.first());
        let rest = scan_spec(first_step.0, lines.drop_first());
        (rest.0, opt_seq(first_step.1) + rest.1)
    }
}


/// Law: a GUID line can never produce a spurious event.  While any slot is
/// still empty, a line that carries neither of the two filling markers --
/// a lone `BE GUID:` line included -- emits nothing and leaves the slots
/// exactly as they were.
pub proof fn lemma_stray_guid_emits_nothing(st: CorrelatorModel, line: Seq<char>)
    requires
        st.identity is None || st.ip_address is None || st.reforger_id is None || st.username
            is None,
        !contains_seq(line, "authenticating"@),
        !contains_seq(line, "Authenticated player"@),
    ensures
        step_spec(st, line).0 == st,
        step_spec(st, line).1 is None,
{
}

/// The correlator: four optional slots that persist across poll cycles.
pub struct Correlator {
    identity: Option<String>,
    ip_address: Option<String>,
    reforger_id: Option<String>,
    username: Option<String>,
}

impl View for Correlator {
    type V = CorrelatorModel;

    closed spec fn view(&self) -> CorrelatorModel {
        CorrelatorModel {
            identity: opt_view(self.identity),
            ip_address: opt_view(self.ip_address),
            reforger_id: opt_view(self.reforger_id),
            username: opt_view(self.username),
        }
    }
}

/// Clones an optional string, keeping its value.
fn clone_opt(o: &Option<String>) -> (r: Option<String>)
    ensures
        r == *o,
{
    match o {
        Some(s) => Some(s.clone()),
        None => None,
    }
}

/// The end of the maximal word run starting at `i`.
fn run_end_word(s: &str, i: usize) -> (r: usize)
    requires
        i <= s@.len(),
    ensures
        i <= r <= s@.len(),
        r as int == run_end(s@, i as int, word_pred()),
{
    let n = s.unicode_len();
    let mut j = i;
    while j < n && is_word_char(s.get_char(j))
        invariant
            i <= j <= n,
            n == s@.len(),
            forall|k: int| i <= k < j ==> is_word(s@[k]),
        decreases n - j,
    {
        j = j + 1;
    }
    proof {
        assert forall|k: int| i <= k < j implies word_pred()(s@[k]) by {
            assert(is_word(s@[k]));
        }
        assert(j == s@.len() || !word_pred()(s@[j as int]));
        lemma_run_end_at(s@, i as int, j as int, word_pred());
    }
    j
}

/// The end of the maximal run of digits and dots starting at `i`.
fn run_end_ip(s: &str, i: usize) -> (r: usize)
    requires
        i <= s@.len(),
    ensures
        i <= r <= s@.len(),
        r as int == run_end(s@, i as int, ip_pred()),
{
    let n = s.unicode_len();
    let mut j = i;
    while j < n && (('0' <= s.get_char(j) && s.get_char(j) <= '9') || s.get_char(j) == '.')
        invariant
            i <= j <= n,
            n == s@.len(),
            forall|k: int| i <= k < j ==> is_ip_char(s@[k]),
        decreases n - j,
    {
        j = j + 1;
    }
    proof {
        assert forall|k: int| i <= k < j implies ip_pred()(s@[k]) by {
            assert(is_ip_char(s@[k]));
        }
        assert(j == s@.len() || !ip_pred()(s@[j as int]));
        lemma_run_end_at(s@, i as int, j as int, ip_pred());
    }
    j
}

/// The end of the maximal run of hex characters and dashes starting at `i`.
fn run_end_rid(s: &str, i: usize) -> (r: usize)
    requires
        i <= s@.len(),
    ensures
        i <= r <= s@.len(),
        r as int == run_end(s@, i as int, rid_pred()),
{
    let n = s.unicode_len();
    let mut j = i;
    while j < n && (('a' <= s.get_char(j) && s.get_char(j) <= 'f') || ('0' <= s.get_char(j)
        && s.get_char(j) <= '9') || s.get_char(j) == '-')
        invariant
            i <= j <= n,
            n == s@.len(),
            forall|k: int| i <= k < j ==> is_rid_char(s@[k]),
        decreases n - j,
    {
        j = j + 1;
    }
    proof {
        assert forall|k: int| i <= k < j implies rid_pred()(s@[k]) by {
            assert(is_rid_char(s@[k]));
        }
        assert(j == s@.len() || !rid_pred()(s@[j as int]));
        lemma_run_end_at(s@, i as int, j as int, rid_pred());
    }
    j
}

/// The end of the maximal whitespace run starting at `i`.
fn run_end_space(s: &str, i: usize) -> (r: usize)
    requires
        i <= s@.len(),
    ensures
        i <= r <= s@.len(),
        r as int == run_end(s@, i as int, space_run_pred()),
{
    let n = s.unicode_len();
    let mut j = i;
    while j < n && is_space_char(s.get_char(j))
        invariant
            i <= j <= n,
            n == s@.len(),
            forall|k: int| i <= k < j ==> is_space(s@[k]),
        decreases n - j,
    {
        j = j + 1;
    }
    proof {
        assert forall|k: int| i <= k < j implies space_run_pred()(s@[k]) by {
            assert(is_space(s@[k]));
        }
        assert(j == s@.len() || !space_run_pred()(s@[j as int]));
        lemma_run_end_at(s@, i as int, j as int, space_run_pred());
    }
    j
}

/// Decides `connecting_match` on a line.
fn match_connecting_line(line: &str) -> (r: Option<(String, String)>)
    ensures
        match r {
            Some(p) => connecting_match(line@) == Some((p.0@, p.1@)),
            None => connecting_match(line@) is None,
        },
{
    let n = line.unicode_len();
    assert(n == line@.len());
    let pat_id = "identity=";
    let pat_addr = "address=";
    let i = match find_str(line, pat_id) {
        None => {
            return None;
        },
        Some(i) => i,
    };
    proof {
        lemma_find_from_some(line@, pat_id@, 0);
    }
    let a = i + pat_id.unicode_len();
    let b = run_end_word(line, a);
    if b <= a {
        return None;
    }
    let j = match find_str_from(line, pat_addr, b) {
        None => {
            return None;
        },
        Some(j) => j,
    };
    proof {
        lemma_find_from_some(line@, pat_addr@, b as int);
    }
    let c = j + pat_addr.unicode_len();
    let d = run_end_ip(line, c);
    if d <= c {
        return None;
    }
    Some((line.substring_char(a, b).to_owned(), line.substring_char(c, d).to_owned()))
}

/// Decides `authenticated_match` on a line.
fn match_authenticated_line(line: &str) -> (r: Option<(String, String)>)
    ensures
        match r {
            Some(p) => authenticated_match(line@) == Some((p.0@, p.1@)),
            None => authenticated_match(line@) is None,
        },
{
    let n = line.unicode_len();
    assert(n == line@.len());
    let pat_id = "identityId=";
    let pat_name = "name=";
    let i = match find_str(line, pat_id) {
        None => {
            return None;
        },
        Some(i) => i,
    };
    proof {
        lemma_find_from_some(line@, pat_id@, 0);
    }
    let a = i + pat_id.unicode_len();
    let b = run_end_rid(line, a);
    if b <= a {
        return None;
    }
    let c = run_end_space(line, b);
    if c <= b {
        return None;
    }
    // `name=` must start exactly at the end of the whitespace run.
    let name_at = match find_str_from(line, pat_name, c) {
        None => {
            proof {
                crate::text::lemma_find_from_none(line@, pat_name@, c as int);
            }
            return None;
        },
        Some(j) => j,
    };
    proof {
        lemma_find_from_some(line@, pat_name@, c as int);
    }
    if name_at != c {
        proof {
            assert(!occurs_at(line@, pat_name@, c as int));
        }
        return None;
    }
    let d = c + pat_name.unicode_len();
    let e = run_end_word(line, d);
    if e <= d {
        return None;
    }
    Some((line.substring_char(a, b).to_owned(), line.substring_char(d, e).to_owned()))
}

/// Decides `guid_match` on a line.
fn match_guid_line(line: &str) -> (r: Option<String>)
    ensures
        match r {
            Some(g) => guid_match(line@) == Some(g@),
            None => guid_match(line@) is None,
        },
{
    let n = line.unicode_len();
    assert(n == line@.len());
    let pat = "BE GUID:";
    let i = match find_str(line, pat) {
        None => {
            return None;
        },
        Some(i) => i,
    };
    proof {
        lemma_find_from_some(line@, pat@, 0);
    }
    let a = i + pat.unicode_len();
    let b = run_end_space(line, a);
    if b <= a {
        return None;
    }
    let c = run_end_word(line, b);
    if c <= b {
        return None;
    }
    Some(line.substring_char(b, c).to_owned())
}

impl Correlator {
    /// A correlator with all slots empty.
    pub fn new() -> (c: Correlator)
        ensures
            c@ == empty_slots(),
    {
        Correlator { identity: None, ip_address: None, reforger_id: None, username: None }
    }

    /// Applies one line to the slots, emitting a completed event when a GUID
    /// line finds all four slots filled.
    pub fn step(&mut self, line: &str) -> (out: Option<PlayerConnection>)
        ensures
            ({
                let r = step_spec(old(self)@, line@);
                final(self)@ == r.0 && match out {
                    Some(c) => r.1 == Some(c@),
                    None => r.1 is None,
                }
            }),
    {
        if contains_str(line, "authenticating") {
            match match_connecting_line(line) {
                Some(p) => {
                    self.identity = Some(p.0);
                    self.ip_address = Some(p.1);
                },
                None => {},
            }
        }
        if contains_str(line, "Authenticated player") {
            match match_authenticated_line(line) {
                Some(p) => {
                    self.reforger_id = Some(p.0);
                    self.username = Some(p.1);
                },
                None => {},
            }
        }
        if contains_str(line, "BE GUID:") {
            match match_guid_line(line) {
                Some(g) => {
                    if self.identity.is_some() && self.ip_address.is_some()
                        && self.reforger_id.is_some() && self.username.is_some() {
                        let conn = PlayerConnection {
                            identity: clone_opt(&self.identity).unwrap(),
                            ip_address: clone_opt(&self.ip_address).unwrap(),
                            reforger_id: clone_opt(&self.reforger_id).unwrap(),
                            username: clone_opt(&self.username).unwrap(),
                            battleye_guid: g,
                        };
                        self.identity = None;
                        self.ip_address = None;
                        self.reforger_id = None;
                        self.username = None;
                        return Some(conn);
                    }
                },
                None => {},
            }
        }
        None
    }

    /// Applies a batch of lines in order, returning every completed event.
    pub fn scan(&mut self, lines: &Vec<String>) -> (out: Vec<PlayerConnection>)
        ensures
            ({
                let r = scan_spec(old(self)@, lines@.map_values(|s: String| s@));
                final(self)@ == r.0 && out@.map_values(|c: PlayerConnection| c@) == r.1
            }),
    {
        let ghost lviews = lines@.map_values(|s: String| s@);
        let ghost target = scan_spec(old(self)@, lviews);
        let mut out: Vec<PlayerConnection> = Vec::new();
        let mut k: usize = 0;
        proof {
            assert(lviews.skip(0) =~= lviews);
        }
        while k < lines.len()
            invariant
                lviews == lines@.map_values(|s: String| s@),
                target == scan_spec(old(self)@, lviews),
                0 <= k <= lines.len(),
                scan_spec(self@, lviews.skip(k as int)).0 == target.0,
                out@.map_values(|c: PlayerConnection| c@) + scan_spec(
                    self@,
                    lviews.skip(k as int),
                ).1 =~= target.1,
            decreases lines.len() - k,
        {
            let ghost pre = self@;
            let line: &String = &lines[k];
            proof {
                assert(line@ == lviews[k as int]);
                assert(lviews.skip(k as int).first() == lviews[k as int]);
                assert(lviews.skip(k as int).drop_first() =~= lviews.skip(k as int + 1));
            }
            let emitted = self.step(line.as_str());
            match emitted {
                Some(c) => {
                    let ghost prev_out = out@;
                    out.push(c);
                    proof {
                        assert(out@.map_values(|x: PlayerConnection| x@) =~= prev_out.map_values(
                            |x: PlayerConnection| x@,
                        ).push(c@));
                        assert(opt_seq(step_spec(pre, lviews[k as int]).1) =~= seq![c@]);
                    }
                },
                None => {
                    proof {
                        assert(opt_seq(step_spec(pre, lviews[k as int]).1) =~= Seq::<
                            ConnectionModel,
                        >::empty());
                    }
                },
            }
            k = k + 1;
        }
        proof {
            assert(lviews.skip(lines@.len() as int) =~= Seq::<Seq<char>>::empty());
        }
        out
    }
}

} // verus!
