//! Character-sequence scanning shared by the line parsers: substring search,
//! trimming, splitting, and character classes, each with an exact
//! specification over `Seq<char>`.

use vstd::prelude::*;

verus! {

/// ASCII whitespace, the only whitespace the log lines carry.
pub open spec fn is_space(c: char) -> bool {
    c == ' ' || c == '\t' || c == '\n' || c == '\r' || c == '\u{b}' || c == '\u{c}'
}

/// A word character: letters, digits and underscore.
pub open spec fn is_word(c: char) -> bool {
    ('a' <= c && c <= 'z') || ('A' <= c && c <= 'Z') || ('0' <= c && c <= '9') || c == '_'
}

/// A decimal digit.
pub open spec fn is_digit(c: char) -> bool {
    '0' <= c && c <= '9'
}

pub fn is_space_char(c: char) -> (r: bool)
    ensures
        r == is_space(c),
{
    c == ' ' || c == '\t' || c == '\n' || c == '\r' || c == '\u{b}' || c == '\u{c}'
}

pub fn is_word_char(c: char) -> (r: bool)
    ensures
        r == is_word(c),
{
    ('a' <= c && c <= 'z') || ('A' <= c && c <= 'Z') || ('0' <= c && c <= '9') || c == '_'
}

pub fn is_digit_char(c: char) -> (r: bool)
    ensures
        r == is_digit(c),
{
    '0' <= c && c <= '9'
}

/// `pat` occurs in `s` starting at position `i`.
pub open spec fn occurs_at(s: Seq<char>, pat: Seq<char>, i: int) -> bool {
    0 <= i && i + pat.len() <= s.len() && s.subrange(i, i + pat.len()) == pat
}

/// The first position at or after `i` where `pat` occurs in `s`, if any.
pub open spec fn spec_find_from(s: Seq<char>, pat: Seq<char>, i: int) -> Option<int>
    decreases s.len() - i + 1,
{
    if i < 0 || i + pat.len() > s.len() {
        None
    } else if occurs_at(s, pat, i) {
        Some(i)
    } else {
        spec_find_from(s, pat, i + 1)
    }
}

pub proof fn lemma_find_from_some(s: Seq<char>, pat: Seq<char>, i: int)
    requires
        spec_find_from(s, pat, i) is Some,
    ensures
        ({
            let r = spec_find_from(s, pat, i)->0;
            i <= r && occurs_at(s, pat, r) && forall|k: int| i <= k < r ==> !occurs_at(s, pat, k)
        }),
    decreases s.len() - i + 1,
{
    if i < 0 || i + pat.len() > s.len() {
    } else if occurs_at(s, pat, i) {
    } else {
        lemma_find_from_some(s, pat, i + 1);
    }
}

pub proof fn lemma_find_from_none(s: Seq<char>, pat: Seq<char>, i: int)
    requires
        0 <= i,
        spec_find_from(s, pat, i) is None,
    ensures
        forall|k: int| i <= k ==> !occurs_at(s, pat, k),
    decreases s.len() - i + 1,
{
    if i + pat.len() > s.len() {
    } else {
        lemma_find_from_none(s, pat, i + 1);
    }
}

/// The converse direction: an occurrence at `r`, with none earlier, pins the
/// search result down.
pub proof fn lemma_find_from_at(s: Seq<char>, pat: Seq<char>, i: int, r: int)
    requires
        0 <= i <= r,
        occurs_at(s, pat, r),
        forall|k: int| i <= k < r ==> !occurs_at(s, pat, k),
    ensures
        spec_find_from(s, pat, i) == Some(r),
    decreases r - i,
{
    if i < r {
        lemma_find_from_at(s, pat, i + 1, r);
    }
}

/// Whether `pat` occurs anywhere in `s`.
pub open spec fn contains_seq(s: Seq<char>, pat: Seq<char>) -> bool {
    spec_find_from(s, pat, 0) is Some
}

/// Compares two string slices character by character.
pub fn str_eq(a: &str, b: &str) -> (r: bool)
    ensures
        r == (a@ == b@),
{
    let n = a.unicode_len();
    if n != b.unicode_len() {
        assert(a@ != b@) by {
            assert(a@.len() != b@.len());
        }
        return false;
    }
    let mut i: usize = 0;
    while i < n
        invariant
            n == a@.len(),
            n == b@.len(),
            0 <= i <= n,
            forall|k: int| 0 <= k < i ==> a@[k] == b@[k],
        decreases n - i,
    {
        if a.get_char(i) != b.get_char(i) {
            return false;
        }
        i = i + 1;
    }
    proof {
        assert(a@ =~= b@);
    }
    true
}

/// `pat` occurs at `i` in `s`, decided by comparing the characters.
fn matches_at(s: &str, pat: &str, i: usize) -> (r: bool)
    requires
        i + pat@.len() <= s@.len(),
    ensures
        r == occurs_at(s@, pat@, i as int),
{
    let n = s.unicode_len();
    let m = pat.unicode_len();
    let mut j: usize = 0;
    while j < m
        invariant
            n == s@.len(),
            m == pat@.len(),
            i + m <= n,
            0 <= j <= m,
            forall|k: int| 0 <= k < j ==> s@[i + k] == pat@[k],
        decreases m - j,
    {
        if s.get_char(i + j) != pat.get_char(j) {
            proof {
                assert(s@.subrange(i as int, i + pat@.len())[j as int] == s@[i + j]);
            }
            return false;
        }
        j = j + 1;
    }
    proof {
        assert(s@.subrange(i as int, i + pat@.len()) =~= pat@);
    }
    true
}

/// The first occurrence of `pat` in `s` at or after `from`.
pub fn find_str_from(s: &str, pat: &str, from: usize) -> (r: Option<usize>)
    requires
        from <= s@.len(),
    ensures
        match r {
            Some(i) => spec_find_from(s@, pat@, from as int) == Some(i as int),
            None => spec_find_from(s@, pat@, from as int) is None,
        },
{
    let n = s.unicode_len();
    let m = pat.unicode_len();
    if m > n || from > n - m {
        proof {
            lemma_find_from_none_short(s@, pat@, from as int);
        }
        return None;
    }
    if m == 0 {
        proof {
            assert(s@.subrange(from as int, from as int) =~= pat@);
            lemma_find_from_at(s@, pat@, from as int, from as int);
        }
        return Some(from);
    }
    let mut i: usize = from;
    while i <= n - m
        invariant
            n == s@.len(),
            m == pat@.len(),
            0 < m <= n,
            from <= i <= n - m + 1,
            forall|k: int| from <= k < i ==> !occurs_at(s@, pat@, k),
        decreases n - i,
    {
        if matches_at(s, pat, i) {
            proof {
                lemma_find_from_at(s@, pat@, from as int, i as int);
            }
            return Some(i);
        }
        i = i + 1;
    }
    proof {
        assert forall|k: int| from <= k implies !occurs_at(s@, pat@, k) by {
            if k < i {
            } else {
                assert(k + pat@.len() > s@.len());
            }
        }
        lemma_find_from_at_none(s@, pat@, from as int);
    }
    None
}

proof fn lemma_find_from_none_short(s: Seq<char>, pat: Seq<char>, i: int)
    requires
        0 <= i,
        i + pat.len() > s.len(),
    ensures
        spec_find_from(s, pat, i) is None,
{
}

proof fn lemma_find_from_at_none(s: Seq<char>, pat: Seq<char>, i: int)
    requires
        0 <= i,
        forall|k: int| i <= k ==> !occurs_at(s, pat, k),
    ensures
        spec_find_from(s, pat, i) is None,
    decreases s.len() - i + 1,
{
    if i + pat.len() <= s.len() {
        lemma_find_from_at_none(s, pat, i + 1);
    }
}

/// The first occurrence of `pat` in `s`.
pub fn find_str(s: &str, pat: &str) -> (r: Option<usize>)
    ensures
        match r {
            Some(i) => spec_find_from(s@, pat@, 0) == Some(i as int),
            None => spec_find_from(s@, pat@, 0) is None,
        },
{
    find_str_from(s, pat, 0)
}

/// Whether `pat` occurs anywhere in `s`.
pub fn contains_str(s: &str, pat: &str) -> (r: bool)
    ensures
        r == contains_seq(s@, pat@),
{
    find_str_from(s, pat, 0).is_some()
}

/// The first position at or after `i` holding character `c`, if any.
pub open spec fn spec_find_char_from(s: Seq<char>, c: char, i: int) -> Option<int>
    decreases s.len() - i,
{
    if i < 0 || i >= s.len() {
        None
    } else if s[i] == c {
        Some(i)
    } else {
        spec_find_char_from(s, c, i + 1)
    }
}

pub proof fn lemma_find_char_some(s: Seq<char>, c: char, i: int)
    requires
        spec_find_char_from(s, c, i) is Some,
    ensures
        ({
            let r = spec_find_char_from(s, c, i)->0;
            i <= r < s.len() && s[r] == c && forall|k: int| i <= k < r ==> s[k] != c
        }),
    decreases s.len() - i,
{
    if i < 0 || i >= s.len() {
    } else if s[i] == c {
    } else {
        lemma_find_char_some(s, c, i + 1);
    }
}

/// The first occurrence of the character `c` in `s`.
pub fn find_char(s: &str, c: char) -> (r: Option<usize>)
    ensures
        match r {
            Some(i) => spec_find_char_from(s@, c, 0) == Some(i as int),
            None => spec_find_char_from(s@, c, 0) is None,
        },
{
    let n = s.unicode_len();
    let mut i: usize = 0;
    while i < n
        invariant
            n == s@.len(),
            0 <= i <= n,
            forall|k: int| 0 <= k < i ==> s@[k] != c,
        decreases n - i,
    {
        if s.get_char(i) == c {
            proof {
                lemma_find_char_at(s@, c, 0, i as int);
            }
            return Some(i);
        }
        i = i + 1;
    }
    proof {
        lemma_find_char_at_none(s@, c, 0);
    }
    None
}

proof fn lemma_find_char_at(s: Seq<char>, c: char, i: int, r: int)
    requires
        0 <= i <= r < s.len(),
        s[r] == c,
        forall|k: int| i <= k < r ==> s[k] != c,
    ensures
        spec_find_char_from(s, c, i) == Some(r),
    decreases r - i,
{
    if i < r {
        lemma_find_char_at(s, c, i + 1, r);
    }
}

proof fn lemma_find_char_at_none(s: Seq<char>, c: char, i: int)
    requires
        0 <= i,
        forall|k: int| i <= k < s.len() ==> s[k] != c,
    ensures
        spec_find_char_from(s, c, i) is None,
    decreases s.len() - i,
{
    if i < s.len() {
        lemma_find_char_at_none(s, c, i + 1);
    }
}

/// `s` without its leading characters satisfying `p`.
pub open spec fn drop_start(s: Seq<char>, p: spec_fn(char) -> bool) -> Seq<char>
    decreases s.len(),
{
    if s.len() > 0 && p(s.first()) {
        drop_start(s.drop_first(), p)
    } else {
        s
    }
}

/// `s` without its trailing characters satisfying `p`.
pub open spec fn drop_end(s: Seq<char>, p: spec_fn(char) -> bool) -> Seq<char>
    decreases s.len(),
{
    if s.len() > 0 && p(s.last()) {
        drop_end(s.drop_last(), p)
    } else {
        s
    }
}

pub proof fn lemma_drop_start_at(s: Seq<char>, p: spec_fn(char) -> bool, k: int)
    requires
        0 <= k <= s.len(),
        forall|i: int| 0 <= i < k ==> p(s[i]),
        k == s.len() || !p(s[k]),
    ensures
        drop_start(s, p) == s.subrange(k, s.len() as int),
    decreases k,
{
    if k == 0 {
        if s.len() > 0 && p(s.first()) {
            assert(false);
        }
        assert(s.subrange(0, s.len() as int) =~= s);
    } else {
        let t = s.drop_first();
        assert(forall|i: int| 0 <= i < k - 1 ==> p(t[i]));
        lemma_drop_start_at(t, p, k - 1);
        assert(t.subrange(k - 1, t.len() as int) =~= s.subrange(k, s.len() as int));
    }
}

pub proof fn lemma_drop_end_at(s: Seq<char>, p: spec_fn(char) -> bool, k: int)
    requires
        0 <= k <= s.len(),
        forall|i: int| k <= i < s.len() ==> p(s[i]),
        k == 0 || !p(s[k - 1]),
    ensures
        drop_end(s, p) == s.subrange(0, k),
    decreases s.len() - k,
{
    if k == s.len() {
        if s.len() > 0 && p(s.last()) {
            assert(false);
        }
        assert(s.subrange(0, s.len() as int) =~= s);
    } else {
        let t = s.drop_last();
        assert(forall|i: int| k <= i < t.len() ==> p(t[i]));
        lemma_drop_end_at(t, p, k);
        assert(t.subrange(0, k) =~= s.subrange(0, k));
    }
}

/// The whitespace predicate, as a value that the trimming specs share.
pub open spec fn space_pred() -> spec_fn(char) -> bool {
    |c: char| is_space(c)
}

/// The single-quote predicate, as a value that the trimming specs share.
pub open spec fn quote_pred() -> spec_fn(char) -> bool {
    |c: char| c == '\''
}

/// `s` with ASCII whitespace removed from both ends.
pub open spec fn trim_spec(s: Seq<char>) -> Seq<char> {
    drop_end(drop_start(s, space_pred()), space_pred())
}

/// `s` with all leading and trailing single-quote characters removed.
pub open spec fn unquote_spec(s: Seq<char>) -> Seq<char> {
    drop_end(drop_start(s, quote_pred()), quote_pred())
}

/// Removes ASCII whitespace from both ends, as the log format allows around
/// its `key=value` pairs.
pub fn trim(s: &str) -> (r: &str)
    ensures
        r@ == trim_spec(s@),
{
    let n = s.unicode_len();
    let mut a: usize = 0;
    while a < n && is_space_char(s.get_char(a))
        invariant
            n == s@.len(),
            0 <= a <= n,
            forall|i: int| 0 <= i < a ==> is_space(s@[i]),
        decreases n - a,
    {
        a = a + 1;
    }
    proof {
        assert forall|i: int| 0 <= i < a implies space_pred()(s@[i]) by {
            assert(is_space(s@[i]));
        }
        assert(a == s@.len() || !space_pred()(s@[a as int]));
        lemma_drop_start_at(s@, space_pred(), a as int);
    }
    let ghost mid = s@.subrange(a as int, s@.len() as int);
    let mut b: usize = n;
    while b > a && is_space_char(s.get_char(b - 1))
        invariant
            n == s@.len(),
            0 <= a <= b <= n,
            forall|i: int| b <= i < n ==> is_space(s@[i]),
        decreases b,
    {
        b = b - 1;
    }
    proof {
        assert forall|i: int| b - a <= i < mid.len() implies space_pred()(mid[i]) by {
            assert(mid[i] == s@[a + i]);
            assert(is_space(s@[a + i]));
        }
        assert(b - a == 0 || !space_pred()(mid[b - a - 1]));
        lemma_drop_end_at(mid, space_pred(), b - a);
        assert(mid.subrange(0, b - a) =~= s@.subrange(a as int, b as int));
    }
    s.substring_char(a, b)
}

/// Removes all leading and trailing single quotes, the optional value
/// delimiters of the log format.
pub fn unquote(s: &str) -> (r: &str)
    ensures
        r@ == unquote_spec(s@),
{
    let n = s.unicode_len();
    let mut a: usize = 0;
    while a < n && s.get_char(a) == '\''
        invariant
            n == s@.len(),
            0 <= a <= n,
            forall|i: int| 0 <= i < a ==> s@[i] == '\'',
        decreases n - a,
    {
        a = a + 1;
    }
    proof {
        assert forall|i: int| 0 <= i < a implies quote_pred()(s@[i]) by {
            assert(s@[i] == '\'');
        }
        assert(a == s@.len() || !quote_pred()(s@[a as int]));
        lemma_drop_start_at(s@, quote_pred(), a as int);
    }
    let ghost mid = s@.subrange(a as int, s@.len() as int);
    let mut b: usize = n;
    while b > a && s.get_char(b - 1) == '\''
        invariant
            n == s@.len(),
            0 <= a <= b <= n,
            forall|i: int| b <= i < n ==> s@[i] == '\'',
        decreases b,
    {
        b = b - 1;
    }
    proof {
        assert forall|i: int| b - a <= i < mid.len() implies quote_pred()(mid[i]) by {
            assert(mid[i] == s@[a + i]);
            assert(s@[a + i] == '\'');
        }
        assert(b - a == 0 || !quote_pred()(mid[b - a - 1]));
        lemma_drop_end_at(mid, quote_pred(), b - a);
        assert(mid.subrange(0, b - a) =~= s@.subrange(a as int, b as int));
    }
    s.substring_char(a, b)
}

/// The pieces of `s` between occurrences of the separator `sep`, in order.
/// A separator at the edge contributes an empty piece, as `str::split` has it.
pub open spec fn split_spec(s: Seq<char>, sep: Seq<char>) -> Seq<Seq<char>>
    decreases s.len(),
{
    if sep.len() == 0 {
        seq![s]
    } else {
        match spec_find_from(s, sep, 0) {
            None => seq![s],
            Some(i) => if 0 <= i && i + sep.len() <= s.len() {
                seq![s.subrange(0, i)] + split_spec(
                    s.subrange(i + sep.len(), s.len() as int),
                    sep,
                )
            } else {
                seq![s]
            },
        }
    }
}

/// Splits `s` at each occurrence of `sep`.
pub fn split_str(s: &str, sep: &str) -> (r: Vec<String>)
    requires
        sep@.len() > 0,
    ensures
        r@.map_values(|t: String| t@) == split_spec(s@, sep@),
{
    let mut r: Vec<String> = Vec::new();
    let mut rest: &str = s;
    loop
        invariant
            sep@.len() > 0,
            r@.map_values(|t: String| t@) + split_spec(rest@, sep@) =~= split_spec(s@, sep@),
        decreases rest@.len(),
    {
        match find_str(rest, sep) {
            None => {
                let piece = rest.to_owned();
                r.push(piece);
                proof {
                    assert(r@.map_values(|t: String| t@) =~= r@.drop_last().map_values(
                        |t: String| t@,
                    ).push(rest@));
                    assert(r@.map_values(|t: String| t@) =~= split_spec(s@, sep@));
                }
                return r;
            },
            Some(i) => {
                proof {
                    lemma_find_from_some(rest@, sep@, 0);
                }
                let seplen = sep.unicode_len();
                let piece = rest.substring_char(0, i).to_owned();
                let n = rest.unicode_len();
                let ghost prev = rest@;
                let next = rest.substring_char(i + seplen, n);
                r.push(piece);
                rest = next;
                proof {
                    assert(r@.map_values(|t: String| t@) =~= r@.drop_last().map_values(
                        |t: String| t@,
                    ).push(prev.subrange(0, i as int)));
                }
            },
        }
    }
}


/// The view of an optional owned string.
pub open spec fn opt_view(o: Option<String>) -> Option<Seq<char>> {
    match o {
        Some(s) => Some(s@),
        None => None,
    }
}

} // verus!
