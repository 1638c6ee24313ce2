//! Character-level helpers: Unicode classifications taken on trust from
//! std, ASCII lowercasing, and stripping of non-alphanumeric edges.

use vstd::prelude::*;

verus! {

/// Whether `c` counts as alphanumeric; the meaning of
/// `char::is_alphanumeric`, never defined here.
pub uninterp spec fn is_alnum(c: char) -> bool;

/// Whether `c` counts as whitespace; the meaning of
/// `char::is_whitespace`, never defined here.
pub uninterp spec fn is_space(c: char) -> bool;

/// Relies on `char::is_alphanumeric`: true exactly for characters in the
/// Unicode letter and digit general categories; depends on `c` alone.
pub assume_specification[ char::is_alphanumeric ](c: char) -> (r: bool)
    ensures
        r == is_alnum(c),
;

/// Relies on `char::is_whitespace`: true exactly for characters with the
/// Unicode `White_Space` property; depends on `c` alone.
pub assume_specification[ char::is_whitespace ](c: char) -> (r: bool)
    ensures
        r == is_space(c),
;

/// Relies on `String::push`: appends the given character to the end of
/// the string.
#[verifier::external_body]
pub(crate) fn push_char(s: &mut String, c: char)
    ensures
        final(s)@ == old(s)@.push(c),
{
    s.push(c);
}

/// `c` with an ASCII uppercase letter mapped to its lowercase
/// counterpart; every other character is unchanged.
pub open spec fn lower_char(c: char) -> char {
    if 65 <= c as u32 && c as u32 <= 90 {
        ((c as u8 + 32) as u8) as char
    } else {
        c
    }
}

/// `s` lowercased character by character, ASCII-only.
pub open spec fn lower(s: Seq<char>) -> Seq<char> {
    s.map_values(|c: char| lower_char(c))
}

fn lower_char_exec(c: char) -> (r: char)
    ensures
        r == lower_char(c),
{
    let u = c as u32;
    if 65 <= u && u <= 90 {
        let b: u8 = c as u8;
        (b + 32) as char
    } else {
        c
    }
}

/// Builds the lowercased copy of `s`.
pub fn lower_str(s: &str) -> (r: String)
    ensures
        r@ == lower(s@),
{
    let n = s.unicode_len();
    let mut r = String::new();
    let mut i: usize = 0;
    while i < n
        invariant
            n == s@.len(),
            i <= n,
            r@ == lower(s@.take(i as int)),
        decreases n - i,
    {
        let c = s.get_char(i);
        push_char(&mut r, lower_char_exec(c));
        i += 1;
        proof {
            assert(lower(s@.take(i as int)) =~= lower(s@.take(i - 1)).push(lower_char(s@[i - 1])));
        }
    }
    proof {
        assert(s@.take(n as int) =~= s@);
    }
    r
}

/// `s` with its longest all-non-alphanumeric prefix removed.
pub open spec fn strip_front(s: Seq<char>) -> Seq<char>
    decreases s.len(),
{
    if s.len() > 0 && !is_alnum(s[0]) {
        strip_front(s.drop_first())
    } else {
        s
    }
}

/// `s` with its longest all-non-alphanumeric suffix removed.
pub open spec fn strip_back(s: Seq<char>) -> Seq<char>
    decreases s.len(),
{
    if s.len() > 0 && !is_alnum(s.last()) {
        strip_back(s.drop_last())
    } else {
        s
    }
}

/// `s` with every leading and trailing non-alphanumeric character
/// removed; empty when `s` has no alphanumeric character at all.
pub open spec fn strip(s: Seq<char>) -> Seq<char> {
    strip_back(strip_front(s))
}

proof fn lemma_strip_front_at(s: Seq<char>, a: int)
    requires
        0 <= a <= s.len(),
        forall|j: int| 0 <= j < a ==> !is_alnum(s[j]),
        a == s.len() || is_alnum(s[a]),
    ensures
        strip_front(s) == s.subrange(a, s.len() as int),
    decreases a,
{
    if a == 0 {
        assert(s.subrange(0, s.len() as int) =~= s);
    } else {
        let t = s.drop_first();
        assert forall|j: int| 0 <= j < a - 1 implies !is_alnum(t[j]) by {
            assert(t[j] == s[j + 1]);
        }
        lemma_strip_front_at(t, a - 1);
        assert(t.subrange(a - 1, t.len() as int) =~= s.subrange(a, s.len() as int));
    }
}

proof fn lemma_strip_back_at(s: Seq<char>, b: int)
    requires
        0 <= b <= s.len(),
        forall|j: int| b <= j < s.len() ==> !is_alnum(s[j]),
        b == 0 || is_alnum(s[b - 1]),
    ensures
        strip_back(s) == s.subrange(0, b),
    decreases s.len(),
{
    if b == s.len() {
        assert(s.subrange(0, b) =~= s);
    } else {
        let t = s.drop_last();
        assert(!is_alnum(s.last()));
        assert forall|j: int| b <= j < t.len() implies !is_alnum(t[j]) by {
            assert(t[j] == s[j]);
        }
        lemma_strip_back_at(t, b);
        assert(t.subrange(0, b) =~= s.subrange(0, b));
    }
}

/// `topic` with leading and trailing non-alphanumeric characters
/// removed.
pub fn trim_topic(topic: &str) -> (r: &str)
    ensures
        r@ == strip(topic@),
{
    let n = topic.unicode_len();
    let mut a: usize = 0;
    while a < n && !topic.get_char(a).is_alphanumeric()
        invariant
            n == topic@.len(),
            a <= n,
            forall|j: int| 0 <= j < a ==> !is_alnum(topic@[j]),
        decreases n - a,
    {
        a += 1;
    }
    if a == n {
        proof {
            lemma_strip_front_at(topic@, n as int);
            assert(strip_front(topic@) =~= Seq::<char>::empty());
            assert(strip(topic@) =~= topic@.subrange(0, 0));
        }
        topic.substring_char(0, 0)
    } else {
        let mut b: usize = n;
        while !topic.get_char(b - 1).is_alphanumeric()
            invariant
                n == topic@.len(),
                a < b <= n,
                is_alnum(topic@[a as int]),
                forall|j: int| b <= j < n ==> !is_alnum(topic@[j]),
            decreases b,
        {
            b -= 1;
        }
        proof {
            lemma_strip_front_at(topic@, a as int);
            let t = topic@.subrange(a as int, n as int);
            assert forall|j: int| b - a <= j < t.len() implies !is_alnum(t[j]) by {
                assert(t[j] == topic@[a + j]);
            }
            assert(t[b - a - 1] == topic@[b - 1]);
            lemma_strip_back_at(t, b - a);
            assert(t.subrange(0, b - a) =~= topic@.subrange(a as int, b as int));
        }
        topic.substring_char(a, b)
    }
}

} // verus!
