//! The help-invocation scanner: finds every non-overlapping
//! occurrence of `:h`, `:he`, `:hel` or `:help`, followed by
//! whitespace and a topic token, in a piece of free text, and yields
//! the topics in left-to-right order.

use vstd::prelude::*;

use crate::chars::is_space;

verus! {

/// The length of the longest prefix of `help` standing at position
/// `i` of `s` (0 when `s[i]` is not `h`).
pub open spec fn hlen(s: Seq<char>, i: int) -> int {
    if 0 <= i < s.len() && s[i] == 'h' {
        if i + 1 < s.len() && s[i + 1] == 'e' {
            if i + 2 < s.len() && s[i + 2] == 'l' {
                if i + 3 < s.len() && s[i + 3] == 'p' {
                    4
                } else {
                    3
                }
            } else {
                2
            }
        } else {
            1
        }
    } else {
        0
    }
}

/// The first position at or after `i` that holds no whitespace, or
/// the end of `s`.
pub open spec fn skip_spaces(s: Seq<char>, i: int) -> int
    decreases s.len() - i,
{
    if 0 <= i < s.len() && is_space(s[i]) {
        skip_spaces(s, i + 1)
    } else {
        i
    }
}

/// The first position at or after `i` that holds whitespace, or the
/// end of `s`.
pub open spec fn skip_nonspaces(s: Seq<char>, i: int) -> int
    decreases s.len() - i,
{
    if 0 <= i < s.len() && !is_space(s[i]) {
        skip_nonspaces(s, i + 1)
    } else {
        i
    }
}

/// Whether a help invocation begins exactly at position `i`: a colon,
/// one of the abbreviations `h`, `he`, `hel`, `help`, at least one
/// whitespace character, and then at least one non-whitespace
/// character opening the topic token.
pub open spec fn match_at(s: Seq<char>, i: int) -> bool {
    let hl = hlen(s, i + 1);
    &&& 0 <= i < s.len()
    &&& s[i] == ':'
    &&& hl >= 1
    &&& i + 1 + hl < s.len()
    &&& is_space(s[i + 1 + hl])
    &&& skip_spaces(s, i + 1 + hl) < s.len()
}

/// The topic token of the invocation at `i`: the maximal run of
/// non-whitespace characters after the whitespace run.
pub open spec fn topic_at(s: Seq<char>, i: int) -> Seq<char>
    recommends
        match_at(s, i),
{
    let t0 = skip_spaces(s, i + 1 + hlen(s, i + 1));
    s.subrange(t0, skip_nonspaces(s, t0))
}

/// The first position after the invocation at `i`, where scanning
/// resumes.
pub open spec fn match_end(s: Seq<char>, i: int) -> int
    recommends
        match_at(s, i),
{
    let t0 = skip_spaces(s, i + 1 + hlen(s, i + 1));
    skip_nonspaces(s, t0)
}

proof fn lemma_skip_spaces_bounds(s: Seq<char>, i: int)
    requires
        0 <= i <= s.len(),
    ensures
        i <= skip_spaces(s, i) <= s.len(),
        skip_spaces(s, i) < s.len() ==> !is_space(s[skip_spaces(s, i)]),
        forall|j: int| i <= j < skip_spaces(s, i) ==> is_space(s[j]),
    decreases s.len() - i,
{
    if i < s.len() && is_space(s[i]) {
        lemma_skip_spaces_bounds(s, i + 1);
    }
}

proof fn lemma_skip_nonspaces_bounds(s: Seq<char>, i: int)
    requires
        0 <= i <= s.len(),
    ensures
        i <= skip_nonspaces(s, i) <= s.len(),
        skip_nonspaces(s, i) < s.len() ==> is_space(s[skip_nonspaces(s, i)]),
        forall|j: int| i <= j < skip_nonspaces(s, i) ==> !is_space(s[j]),
    decreases s.len() - i,
{
    if i < s.len() && !is_space(s[i]) {
        lemma_skip_nonspaces_bounds(s, i + 1);
    }
}

proof fn lemma_skip_spaces_at(s: Seq<char>, w: int, t: int)
    requires
        0 <= w <= t <= s.len(),
        forall|j: int| w <= j < t ==> is_space(s[j]),
        t == s.len() || !is_space(s[t]),
    ensures
        skip_spaces(s, w) == t,
    decreases t - w,
{
    if w < t {
        lemma_skip_spaces_at(s, w + 1, t)
    }
}

proof fn lemma_skip_nonspaces_at(s: Seq<char>, w: int, t: int)
    requires
        0 <= w <= t <= s.len(),
        forall|j: int| w <= j < t ==> !is_space(s[j]),
        t == s.len() || is_space(s[t]),
    ensures
        skip_nonspaces(s, w) == t,
    decreases t - w,
{
    if w < t {
        lemma_skip_nonspaces_at(s, w + 1, t)
    }
}

/// A matched invocation ends strictly after it begins.
proof fn lemma_match_end_past(s: Seq<char>, i: int)
    requires
        match_at(s, i),
    ensures
        i < match_end(s, i) <= s.len(),
{
    let w = i + 1 + hlen(s, i + 1);
    lemma_skip_spaces_bounds(s, w);
    let t0 = skip_spaces(s, w);
    lemma_skip_nonspaces_bounds(s, t0);
}

/// The topics of all help invocations at or after position `i`,
/// leftmost first; matches do not overlap, scanning resumes after
/// each matched token.
pub open spec fn topics_from(s: Seq<char>, i: int) -> Seq<Seq<char>>
    decreases s.len() - i,
        when 0 <= i
    via topics_from_decreases
{
    if i >= s.len() {
        Seq::empty()
    } else if match_at(s, i) {
        seq![topic_at(s, i)] + topics_from(s, match_end(s, i))
    } else {
        topics_from(s, i + 1)
    }
}

#[via_fn]
proof fn topics_from_decreases(s: Seq<char>, i: int) {
    if i < s.len() && match_at(s, i) {
        lemma_match_end_past(s, i);
    }
}

/// Finds the invocation beginning exactly at `i`, if there is one,
/// returning its topic and the position where scanning resumes.
fn match_help_at(text: &str, i: usize) -> (r: Option<(String, usize)>)
    requires
        i < text@.len(),
    ensures
        match r {
            Some(p) => {
                &&& match_at(text@, i as int)
                &&& p.0@ == topic_at(text@, i as int)
                &&& p.1 == match_end(text@, i as int)
                &&& i < p.1 <= text@.len()
            },
            None => !match_at(text@, i as int),
        },
{
    let n = text.unicode_len();
    if text.get_char(i) != ':' {
        return None;
    }
    let mut hl: usize = 0;
    if i + 1 < n && text.get_char(i + 1) == 'h' {
        hl = 1;
        if i + 2 < n && text.get_char(i + 2) == 'e' {
            hl = 2;
            if i + 3 < n && text.get_char(i + 3) == 'l' {
                hl = 3;
                if i + 4 < n && text.get_char(i + 4) == 'p' {
                    hl = 4;
                }
            }
        }
    }
    proof {
        assert(hl == hlen(text@, i + 1));
    }
    if hl == 0 {
        return None;
    }
    let w = i + 1 + hl;
    if w >= n || !text.get_char(w).is_whitespace() {
        return None;
    }
    let mut t0: usize = w;
    while t0 < n && text.get_char(t0).is_whitespace()
        invariant
            n == text@.len(),
            w <= t0 <= n,
            forall|j: int| w <= j < t0 ==> is_space(text@[j]),
        decreases n - t0,
    {
        t0 += 1;
    }
    proof {
        lemma_skip_spaces_at(text@, w as int, t0 as int);
    }
    if t0 >= n {
        return None;
    }
    let mut t1: usize = t0;
    while t1 < n && !text.get_char(t1).is_whitespace()
        invariant
            n == text@.len(),
            t0 <= t1 <= n,
            forall|j: int| t0 <= j < t1 ==> !is_space(text@[j]),
        decreases n - t1,
    {
        t1 += 1;
    }
    proof {
        lemma_skip_nonspaces_at(text@, t0 as int, t1 as int);
        lemma_match_end_past(text@, i as int);
    }
    let topic: String = text.substring_char(t0, t1).to_owned();
    Some((topic, t1))
}

/// Scans `text` and returns the topics of its help invocations, in
/// left-to-right order of occurrence.
pub fn extract_topics(text: &str) -> (r: Vec<String>)
    ensures
        r.deep_view() == topics_from(text@, 0),
{
    let n = text.unicode_len();
    let mut out: Vec<String> = Vec::new();
    let mut i: usize = 0;
    while i < n
        invariant
            n == text@.len(),
            i <= n,
            out.deep_view() + topics_from(text@, i as int) == topics_from(text@, 0),
        decreases n - i,
    {
        let ghost prev = out.deep_view();
        match match_help_at(text, i) {
            Some(p) => {
                let (topic, end) = p;
                proof {
                    assert(topics_from(text@, i as int) == seq![topic_at(text@, i as int)]
                        + topics_from(text@, end as int));
                }
                out.push(topic);
                proof {
                    assert(out.deep_view() =~= prev.push(topic_at(text@, i as int)));
                    assert(out.deep_view() + topics_from(text@, end as int) =~= prev + topics_from(
                        text@,
                        i as int,
                    ));
                }
                i = end;
            },
            None => {
                proof {
                    assert(topics_from(text@, i as int) == topics_from(text@, i + 1));
                }
                i += 1;
            },
        }
    }
    proof {
        assert(topics_from(text@, n as int) =~= Seq::<Seq<char>>::empty());
        assert(out.deep_view() + topics_from(text@, n as int) =~= out.deep_view());
    }
    out
}

} // verus!
