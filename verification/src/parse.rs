//! Parsing of one input line into a pair of node names.
//!
//! A line is a valid pair line when it has at least two characters and,
//! after trimming surrounding whitespace, splitting it on single spaces
//! yields at least two tokens; the first two tokens are the pair and
//! anything after them is ignored. Everything else (a blank line, a line of
//! one character, a line with a single token) parses to nothing, which the
//! loader treats as the section switch or skips.

use vstd::prelude::*;

verus! {

/// The characters trimmed from either end of a line.
pub open spec fn is_ws_char(c: char) -> bool {
    c == ' ' || c == '\t' || c == '\n' || c == '\r' || c == '\u{b}' || c == '\u{c}'
}

/// How many whitespace characters the line starts with.
pub open spec fn leading_ws(s: Seq<char>) -> int
    decreases s.len(),
{
    if s.len() == 0 || !is_ws_char(s[0]) {
        0
    } else {
        1 + leading_ws(s.drop_first())
    }
}

/// How many whitespace characters the line ends with.
pub open spec fn trailing_ws(s: Seq<char>) -> int
    decreases s.len(),
{
    if s.len() == 0 || !is_ws_char(s.last()) {
        0
    } else {
        1 + trailing_ws(s.drop_last())
    }
}

/// The line with surrounding whitespace removed.
pub open spec fn trimmed(s: Seq<char>) -> Seq<char> {
    if leading_ws(s) == s.len() {
        Seq::empty()
    } else {
        s.subrange(leading_ws(s), s.len() - trailing_ws(s))
    }
}

/// The index of the first space, or the length when there is none: the
/// boundary of the first token under splitting on single spaces.
pub open spec fn space_split(s: Seq<char>) -> int
    decreases s.len(),
{
    if s.len() == 0 || s[0] == ' ' {
        0
    } else {
        1 + space_split(s.drop_first())
    }
}

/// What a line parses to: the first two space-separated tokens of the
/// trimmed line, or nothing when the line is shorter than two characters or
/// the trimmed line has no space (fewer than two tokens). The second token
/// is empty when two spaces stand together.
pub open spec fn parsed_pair(s: Seq<char>) -> Option<(Seq<char>, Seq<char>)> {
    if s.len() < 2 {
        None
    } else {
        let t = trimmed(s);
        if space_split(t) == t.len() {
            None
        } else {
            let p = space_split(t);
            let rest = t.subrange(p + 1, t.len() as int);
            Some((t.subrange(0, p), rest.subrange(0, space_split(rest))))
        }
    }
}

/// The leading-whitespace count is the one cut that has whitespace before
/// it and a non-whitespace character (or the end) at it.
proof fn lemma_leading_ws_is(s: Seq<char>, i: int)
    requires
        0 <= i <= s.len(),
        forall|k: int| 0 <= k < i ==> is_ws_char(#[trigger] s[k]),
        i < s.len() ==> !is_ws_char(s[i]),
    ensures
        leading_ws(s) == i,
    decreases s.len(),
{
    if s.len() == 0 {
    } else if i == 0 {
    } else {
        let d = s.drop_first();
        assert forall|k: int| 0 <= k < i - 1 implies is_ws_char(#[trigger] d[k]) by {
            assert(d[k] == s[k + 1]);
        }
        assert(i - 1 < d.len() ==> !is_ws_char(d[i - 1])) by {
            if i - 1 < d.len() {
                assert(d[i - 1] == s[i]);
            }
        }
        lemma_leading_ws_is(d, i - 1);
        assert(is_ws_char(s[0]));
    }
}

/// The trailing-whitespace count, characterized the same way from the end.
proof fn lemma_trailing_ws_is(s: Seq<char>, t: int)
    requires
        0 <= t <= s.len(),
        forall|k: int| s.len() - t <= k < s.len() ==> is_ws_char(#[trigger] s[k]),
        t < s.len() ==> !is_ws_char(s[s.len() - t - 1]),
    ensures
        trailing_ws(s) == t,
    decreases s.len(),
{
    if s.len() == 0 {
    } else if t == 0 {
        assert(!is_ws_char(s.last()));
    } else {
        let d = s.drop_last();
        assert(is_ws_char(s.last()));
        assert forall|k: int| d.len() - (t - 1) <= k < d.len() implies is_ws_char(
            #[trigger] d[k],
        ) by {
            assert(d[k] == s[k]);
            assert(s.len() - t <= k < s.len());
        }
        assert(t - 1 < d.len() ==> !is_ws_char(d[d.len() - (t - 1) - 1])) by {
            if t - 1 < d.len() {
                assert(d[d.len() - t] == s[s.len() - t - 1]);
            }
        }
        lemma_trailing_ws_is(d, t - 1);
    }
}

/// The first-token boundary is the one cut with no space before it and a
/// space (or the end) at it.
proof fn lemma_space_split_is(s: Seq<char>, p: int)
    requires
        0 <= p <= s.len(),
        forall|k: int| 0 <= k < p ==> #[trigger] s[k] != ' ',
        p < s.len() ==> s[p] == ' ',
    ensures
        space_split(s) == p,
    decreases s.len(),
{
    if s.len() == 0 {
    } else if p == 0 {
    } else {
        let d = s.drop_first();
        assert forall|k: int| 0 <= k < p - 1 implies #[trigger] d[k] != ' ' by {
            assert(d[k] == s[k + 1]);
        }
        assert(p - 1 < d.len() ==> d[p - 1] == ' ') by {
            if p - 1 < d.len() {
                assert(d[p - 1] == s[p]);
            }
        }
        lemma_space_split_is(d, p - 1);
        assert(s[0] != ' ');
    }
}

/// Whether `c` counts as whitespace for trimming.
fn is_ws(c: char) -> (r: bool)
    ensures
        r == is_ws_char(c),
{
    c == ' ' || c == '\t' || c == '\n' || c == '\r' || c == '\u{b}' || c == '\u{c}'
}

/// Parses one line into its pair of node names, exactly when the line is a
/// valid pair line; everything else parses to nothing.
pub fn parse_line(s: &str) -> (r: Option<(String, String)>)
    ensures
        r is Some <==> parsed_pair(s@) is Some,
        r matches Some(pair) ==> parsed_pair(s@) == Some((pair.0@, pair.1@)),
{
    let n = s.unicode_len();
    if n < 2 {
        return None;
    }
    let mut i: usize = 0;
    while i < n && is_ws(s.get_char(i))
        invariant
            0 <= i <= n,
            n == s@.len(),
            forall|k: int| 0 <= k < i ==> is_ws_char(#[trigger] s@[k]),
        decreases n - i,
    {
        i = i + 1;
    }
    proof {
        lemma_leading_ws_is(s@, i as int);
    }
    if i == n {
        return None;
    }
    let mut j: usize = n;
    while j > i && is_ws(s.get_char(j - 1))
        invariant
            i <= j <= n,
            n == s@.len(),
            i < n,
            !is_ws_char(s@[i as int]),
            forall|k: int| j <= k < n ==> is_ws_char(#[trigger] s@[k]),
        decreases j,
    {
        j = j - 1;
    }
    proof {
        assert(j > i);
        lemma_trailing_ws_is(s@, n - j);
        assert(trimmed(s@) =~= s@.subrange(i as int, j as int));
    }
    let ghost t = trimmed(s@);
    let mut p: usize = i;
    while p < j && s.get_char(p) != ' '
        invariant
            i <= p <= j <= n,
            n == s@.len(),
            forall|k: int| i <= k < p ==> #[trigger] s@[k] != ' ',
        decreases j - p,
    {
        p = p + 1;
    }
    proof {
        assert forall|k: int| 0 <= k < p - i implies #[trigger] t[k] != ' ' by {
            assert(t[k] == s@[i + k]);
        }
        assert(p - i < t.len() ==> t[p - i] == ' ');
        lemma_space_split_is(t, p - i);
    }
    if p == j {
        return None;
    }
    let lval = s.substring_char(i, p).to_owned();
    let ghost rest = t.subrange(p - i + 1, t.len() as int);
    proof {
        assert(lval@ =~= t.subrange(0, p - i));
        assert(rest =~= s@.subrange(p + 1, j as int));
    }
    let mut q: usize = p + 1;
    while q < j && s.get_char(q) != ' '
        invariant
            p + 1 <= q <= j <= n,
            n == s@.len(),
            forall|k: int| p + 1 <= k < q ==> #[trigger] s@[k] != ' ',
        decreases j - q,
    {
        q = q + 1;
    }
    proof {
        assert forall|k: int| 0 <= k < q - p - 1 implies #[trigger] rest[k] != ' ' by {
            assert(rest[k] == s@[p + 1 + k]);
        }
        assert(q - p - 1 < rest.len() ==> rest[q - p - 1] == ' ');
        lemma_space_split_is(rest, q - p - 1);
    }
    let rval = s.substring_char(p + 1, q).to_owned();
    proof {
        assert(rval@ =~= rest.subrange(0, q - p - 1));
    }
    Some((lval, rval))
}

} // verus!
