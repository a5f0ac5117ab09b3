//! Rotation-safe file tailing, as arithmetic over offsets and bytes.
//!
//! The tailer owns a byte offset into one log file.  Each poll cycle the
//! caller re-resolves the file, reports its current length, reads the bytes
//! from the tailer's chosen start to end of file, and hands them in.  The
//! tailer yields the complete (newline-terminated) lines and advances its
//! offset past them; a trailing partial line is left unconsumed and is read
//! again next cycle once the file has grown.  A file shorter than the stored
//! offset was truncated or replaced: reading restarts at byte zero.
//!
//! A variant additionally watches a server-restart marker line; when the
//! marker's timestamp changes, the next read restarts at byte zero even
//! though the file did not shrink.

use crate::correlator::run_end;
use crate::text::is_digit;
use vstd::prelude::*;

verus! {

/// The newline byte.
pub open spec fn nl() -> u8 {
    10
}

/// The carriage-return byte.
pub open spec fn cr() -> u8 {
    13
}

/// Where a poll starts reading: byte zero after a truncation, the stored
/// offset otherwise.
pub open spec fn read_start_spec(offset: u64, file_len: u64) -> u64 {
    if file_len < offset {
        0
    } else {
        offset
    }
}

/// The first newline at or after `i`.
pub open spec fn spec_find_nl_from(b: Seq<u8>, i: int) -> Option<int>
    decreases b.len() - i,
{
    if i < 0 || i >= b.len() {
        None
    } else if b[i] == nl() {
        Some(i)
    } else {
        spec_find_nl_from(b, i + 1)
    }
}

/// The last newline of `b`, if any.
pub open spec fn find_last_nl(b: Seq<u8>) -> Option<int>
    decreases b.len(),
{
    if b.len() == 0 {
        None
    } else if b.last() == nl() {
        Some(b.len() - 1)
    } else {
        find_last_nl(b.drop_last())
    }
}

/// How many leading bytes of `b` belong to complete lines: everything up to
/// and including the last newline, nothing when there is none.
pub open spec fn complete_len(b: Seq<u8>) -> int {
    match find_last_nl(b) {
        None => 0,
        Some(i) => i + 1,
    }
}

/// A line without its trailing carriage return, if it carries one.
pub open spec fn strip_cr(s: Seq<u8>) -> Seq<u8> {
    if s.len() > 0 && s.last() == cr() {
        s.drop_last()
    } else {
        s
    }
}

/// The newline-separated lines of `b`, each without its terminator and
/// without a carriage return before it.
pub open spec fn split_lines(b: Seq<u8>) -> Seq<Seq<u8>>
    decreases b.len(),
{
    match spec_find_nl_from(b, 0) {
        None => if b.len() == 0 {
            Seq::empty()
        } else {
            seq![strip_cr(b)]
        },
        Some(i) => if 0 <= i < b.len() {
            seq![strip_cr(b.subrange(0, i))] + split_lines(b.subrange(i + 1, b.len() as int))
        } else {
            seq![strip_cr(b)]
        },
    }
}

/// What one poll yields: the complete lines of the chunk.
pub open spec fn poll_lines_spec(chunk: Seq<u8>) -> Seq<Seq<u8>> {
    split_lines(chunk.subrange(0, complete_len(chunk)))
}

proof fn lemma_find_nl_at(b: Seq<u8>, i: int, r: int)
    requires
        0 <= i <= r < b.len(),
        b[r] == nl(),
        forall|k: int| i <= k < r ==> b[k] != nl(),
    ensures
        spec_find_nl_from(b, i) == Some(r),
    decreases r - i,
{
    if i < r {
        lemma_find_nl_at(b, i + 1, r);
    }
}

proof fn lemma_find_nl_at_none(b: Seq<u8>, i: int)
    requires
        0 <= i,
        forall|k: int| i <= k < b.len() ==> b[k] != nl(),
    ensures
        spec_find_nl_from(b, i) is None,
    decreases b.len() - i,
{
    if i < b.len() {
        lemma_find_nl_at_none(b, i + 1);
    }
}

/// A cut position one past the last newline pins `complete_len` down.
proof fn lemma_complete_len_at(b: Seq<u8>, cut: int)
    requires
        0 <= cut <= b.len(),
        cut == 0 ==> forall|k: int| 0 <= k < b.len() ==> b[k] != nl(),
        cut > 0 ==> b[cut - 1] == nl(),
        forall|k: int| cut <= k < b.len() ==> b[k] != nl(),
    ensures
        complete_len(b) == cut,
    decreases b.len(),
{
    if b.len() == 0 {
    } else if b.last() == nl() {
        assert(cut == b.len());
    } else {
        let t = b.drop_last();
        assert(cut < b.len());
        assert(forall|k: int| cut <= k < t.len() ==> t[k] != nl());
        if cut == 0 {
            assert(forall|k: int| 0 <= k < t.len() ==> t[k] != nl());
        } else {
            assert(t[cut - 1] == nl());
        }
        lemma_complete_len_at(t, cut);
    }
}

/// A chunk that ends in a newline is consumed whole: the offset reaches end
/// of file.
pub proof fn lemma_terminated_chunk_consumed(b: Seq<u8>)
    requires
        b.len() == 0 || b.last() == nl(),
    ensures
        complete_len(b) == b.len(),
{
}

/// The tailer: a private offset into one log file, and the restart marker
/// last seen, if the variant is used.
pub struct Tailer {
    offset: u64,
    restart_marker: Option<String>,
}

/// The mathematical shadow of `Tailer`.
pub ghost struct TailerModel {
    pub offset: u64,
    pub restart_marker: Option<Seq<char>>,
}

impl View for Tailer {
    type V = TailerModel;

    closed spec fn view(&self) -> TailerModel {
        TailerModel {
            offset: self.offset,
            restart_marker: crate::text::opt_view(self.restart_marker),
        }
    }
}

impl Tailer {
    /// Opens at the current end of file, so that only future content is
    /// processed.
    pub fn open_at(file_len: u64) -> (t: Tailer)
        ensures
            t@.offset == file_len,
            t@.restart_marker is None,
    {
        Tailer { offset: file_len, restart_marker: None }
    }

    /// The stored offset.
    pub fn offset(&self) -> (r: u64)
        ensures
            r == self@.offset,
    {
        self.offset
    }

    /// Where the next read must start, given the file's current length.
    pub fn read_start(&self, file_len: u64) -> (r: u64)
        ensures
            r == read_start_spec(self@.offset, file_len),
    {
        if file_len < self.offset {
            0
        } else {
            self.offset
        }
    }

    /// Consumes the bytes read from `read_start` to end of file: yields the
    /// complete lines and advances the offset past them, leaving a trailing
    /// partial line to be read again next cycle.
    pub fn ingest(&mut self, chunk: &Vec<u8>, file_len: u64) -> (lines: Vec<Vec<u8>>)
        requires
            chunk@.len() == file_len - read_start_spec(old(self)@.offset, file_len),
        ensures
            final(self)@.offset == read_start_spec(old(self)@.offset, file_len) + complete_len(
                chunk@,
            ),
            final(self)@.restart_marker == old(self)@.restart_marker,
            lines@.map_values(|l: Vec<u8>| l@) == poll_lines_spec(chunk@),
    {
        let start = self.read_start(file_len);
        let n = chunk.len();
        // One backward-free pass that remembers the position after the last
        // newline seen so far.
        let mut cut: usize = 0;
        let mut j: usize = 0;
        while j < n
            invariant
                n == chunk@.len(),
                0 <= cut <= j <= n,
                cut == 0 ==> forall|k: int| 0 <= k < j ==> chunk@[k] != nl(),
                cut > 0 ==> chunk@[cut - 1] == nl(),
                forall|k: int| cut <= k < j ==> chunk@[k] != nl(),
            decreases n - j,
        {
            if chunk[j] == 10 {
                cut = j + 1;
            }
            j = j + 1;
        }
        proof {
            lemma_complete_len_at(chunk@, cut as int);
        }
        let ghost whole = chunk@.subrange(0, cut as int);
        let mut lines: Vec<Vec<u8>> = Vec::new();
        let mut i: usize = 0;
        proof {
            assert(whole.subrange(0, cut as int) =~= whole);
        }
        while i < cut
            invariant
                n == chunk@.len(),
                0 <= i <= cut <= n,
                whole == chunk@.subrange(0, cut as int),
                complete_len(chunk@) == cut,
                i < cut ==> chunk@[cut - 1] == nl(),
                lines@.map_values(|l: Vec<u8>| l@) + split_lines(
                    chunk@.subrange(i as int, cut as int),
                ) =~= split_lines(whole),
            decreases cut - i,
        {
            // Find the terminator of the line that starts at `i`.
            let mut j2: usize = i;
            while j2 < cut && chunk[j2] != 10
                invariant
                    n == chunk@.len(),
                    i <= j2 <= cut <= n,
                    forall|k: int| i <= k < j2 ==> chunk@[k] != nl(),
                decreases cut - j2,
            {
                j2 = j2 + 1;
            }
            assert(j2 < cut) by {
                if j2 == cut {
                    assert(chunk@[cut - 1] == nl());
                }
            }
            let ghost region = chunk@.subrange(i as int, cut as int);
            proof {
                assert forall|k: int| 0 <= k < j2 - i implies region[k] != nl() by {
                    assert(region[k] == chunk@[i + k]);
                }
                assert(region[j2 - i] == chunk@[j2 as int]);
                lemma_find_nl_at(region, 0, j2 - i);
            }
            // Drop a carriage return just before the newline.
            let line_end = if j2 > i && chunk[j2 - 1] == 13 {
                j2 - 1
            } else {
                j2
            };
            let mut line: Vec<u8> = Vec::new();
            let mut k: usize = i;
            while k < line_end
                invariant
                    n == chunk@.len(),
                    i <= k <= line_end <= n,
                    line@ =~= chunk@.subrange(i as int, k as int),
                decreases line_end - k,
            {
                let b = chunk[k];
                line.push(b);
                proof {
                    assert(line@ =~= chunk@.subrange(i as int, k + 1));
                }
                k = k + 1;
            }
            proof {
                assert(strip_cr(region.subrange(0, j2 - i)) =~= chunk@.subrange(
                    i as int,
                    line_end as int,
                )) by {
                    assert(region.subrange(0, j2 - i) =~= chunk@.subrange(i as int, j2 as int));
                    if j2 > i && chunk@[j2 - 1] == cr() {
                        assert(chunk@.subrange(i as int, j2 as int).drop_last() =~= chunk@.subrange(
                            i as int,
                            j2 - 1,
                        ));
                    }
                }
            }
            let ghost prev_lines = lines@;
            lines.push(line);
            proof {
                assert(lines@.map_values(|l: Vec<u8>| l@) =~= prev_lines.map_values(
                    |l: Vec<u8>| l@,
                ).push(chunk@.subrange(i as int, line_end as int)));
                assert(region.subrange(j2 - i + 1, region.len() as int) =~= chunk@.subrange(
                    j2 + 1,
                    cut as int,
                ));
            }
            i = j2 + 1;
        }
        proof {
            assert(chunk@.subrange(cut as int, cut as int) =~= Seq::<u8>::empty());
            assert(split_lines(Seq::<u8>::empty()) =~= Seq::<Seq<u8>>::empty());
            assert(lines@.map_values(|l: Vec<u8>| l@) =~= split_lines(whole));
        }
        self.offset = start + cut as u64;
        lines
    }

    /// Feeds one observed restart-marker value.  The first value is only
    /// remembered; a value equal to the remembered one is ignored; a
    /// different value resets the offset to byte zero and replaces the
    /// remembered value.
    pub fn observe_restart_marker(&mut self, marker: &str)
        ensures
            ({
                let m = old(self)@;
                match m.restart_marker {
                    None => final(self)@.offset == m.offset && final(self)@.restart_marker
                        == Some(marker@),
                    Some(prev) => if prev == marker@ {
                        final(self)@ == m
                    } else {
                        final(self)@.offset == 0 && final(self)@.restart_marker == Some(marker@)
                    },
                }
            }),
    {
        match &self.restart_marker {
            None => {
                self.restart_marker = Some(marker.to_owned());
            },
            Some(prev) => {
                if !crate::text::str_eq(prev.as_str(), marker) {
                    self.offset = 0;
                    self.restart_marker = Some(marker.to_owned());
                }
            },
        }
    }
}

/// The digit predicate, as a shared value.
pub open spec fn digit_pred() -> spec_fn(char) -> bool {
    |c: char| is_digit(c)
}

/// The end of a leading `HH:MM:SS[.mmm]` timestamp, if the line carries one:
/// eight characters, plus a dot and up to three fraction digits.
pub open spec fn timestamp_prefix_end(s: Seq<char>) -> Option<int> {
    if s.len() >= 8 && is_digit(s[0]) && is_digit(s[1]) && s[2] == ':' && is_digit(s[3])
        && is_digit(s[4]) && s[5] == ':' && is_digit(s[6]) && is_digit(s[7]) {
        if s.len() > 8 && s[8] == '.' {
            let e = run_end(s, 9, digit_pred());
            let ms = if e > 12 {
                12int
            } else {
                e
            };
            if ms == 9 {
                Some(8)
            } else {
                Some(ms)
            }
        } else {
            Some(8)
        }
    } else {
        None
    }
}

/// The restart-marker value of a line, if the line is one: a line that
/// announces the log's creation, carrying a leading timestamp.  The
/// timestamp is the value that distinguishes one server instance from the
/// next.
pub open spec fn restart_marker_spec(line: Seq<char>) -> Option<Seq<char>> {
    if crate::text::contains_seq(line, "Game successfully created"@) {
        match timestamp_prefix_end(line) {
            Some(e) => if 0 <= e <= line.len() {
                Some(line.subrange(0, e))
            } else {
                None
            },
            None => None,
        }
    } else {
        None
    }
}

/// Recognizes a restart-marker line and extracts its timestamp.
pub fn restart_marker_of(line: &str) -> (r: Option<String>)
    ensures
        match r {
            Some(m) => restart_marker_spec(line@) == Some(m@),
            None => restart_marker_spec(line@) is None,
        },
{
    if !crate::text::contains_str(line, "Game successfully created") {
        return None;
    }
    let len = line.unicode_len();
    if len < 8 {
        return None;
    }
    let ok = crate::text::is_digit_char(line.get_char(0)) && crate::text::is_digit_char(
        line.get_char(1),
    ) && line.get_char(2) == ':' && crate::text::is_digit_char(line.get_char(3))
        && crate::text::is_digit_char(line.get_char(4)) && line.get_char(5) == ':'
        && crate::text::is_digit_char(line.get_char(6)) && crate::text::is_digit_char(
        line.get_char(7),
    );
    if !ok {
        return None;
    }
    if len > 8 && line.get_char(8) == '.' {
        let e = run_end_digit(line, 9);
        let ms = if e > 12 {
            12
        } else {
            e
        };
        if ms == 9 {
            Some(line.substring_char(0, 8).to_owned())
        } else {
            Some(line.substring_char(0, ms).to_owned())
        }
    } else {
        Some(line.substring_char(0, 8).to_owned())
    }
}

/// The end of the maximal digit run starting at `i`.
fn run_end_digit(s: &str, i: usize) -> (r: usize)
    requires
        i <= s@.len(),
    ensures
        i <= r <= s@.len(),
        r as int == run_end(s@, i as int, digit_pred()),
{
    let n = s.unicode_len();
    let mut j = i;
    while j < n && crate::text::is_digit_char(s.get_char(j))
        invariant
            i <= j <= n,
            n == s@.len(),
            forall|k: int| i <= k < j ==> is_digit(s@[k]),
        decreases n - j,
    {
        j = j + 1;
    }
    proof {
        assert forall|k: int| i <= k < j implies digit_pred()(s@[k]) by {
            assert(is_digit(s@[k]));
        }
        assert(j == s@.len() || !digit_pred()(s@[j as int]));
        crate::correlator::lemma_run_end_at(s@, i as int, j as int, digit_pred());
    }
    j
}

/// Decodes one raw line for the parsers.
///
/// Relies on `String::from_utf8_lossy`: ASCII bytes decode to the characters
/// with the same code points; invalid sequences are replaced, losing no
/// valid byte.
#[verifier::external_body]
pub fn decode_line(bytes: &Vec<u8>) -> (r: String)
    ensures
        (forall|i: int| 0 <= i < bytes@.len() ==> bytes@[i] < 128) ==> (r@.len() == bytes@.len()
            && forall|i: int|
            0 <= i < bytes@.len() ==> r@[i] as u32 == bytes@[i] as u32),
{
    String::from_utf8_lossy(bytes).into_owned()
}

} // verus!
