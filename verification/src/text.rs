//! Character-level helpers: whitespace, trimming and conversion of text to
//! character vectors.

use vstd::prelude::*;

verus! {

/// Whether `c` has the Unicode `White_Space` property, which is the set of
/// characters that `char::is_whitespace` and `str::trim` treat as whitespace.
pub open spec fn is_whitespace(c: char) -> bool {
    let u = c as u32;
    ||| 0x09 <= u && u <= 0x0d
    ||| u == 0x20
    ||| u == 0x85
    ||| u == 0xa0
    ||| u == 0x1680
    ||| 0x2000 <= u && u <= 0x200a
    ||| u == 0x2028
    ||| u == 0x2029
    ||| u == 0x202f
    ||| u == 0x205f
    ||| u == 0x3000
}

/// `s` without its leading whitespace.
pub open spec fn trim_start(s: Seq<char>) -> Seq<char>
    decreases s.len(),
{
    if s.len() > 0 && is_whitespace(s[0]) {
        trim_start(s.drop_first())
    } else {
        s
    }
}

/// `s` without its trailing whitespace.
pub open spec fn trim_end(s: Seq<char>) -> Seq<char>
    decreases s.len(),
{
    if s.len() > 0 && is_whitespace(s.last()) {
        trim_end(s.drop_last())
    } else {
        s
    }
}

/// `s` without its leading and trailing whitespace, as `str::trim` gives it.
pub open spec fn trimmed(s: Seq<char>) -> Seq<char> {
    trim_end(trim_start(s))
}

/// Decides whether `c` is a whitespace character.
pub fn is_whitespace_char(c: char) -> (b: bool)
    ensures
        b == is_whitespace(c),
{
    let u = c as u32;
    (0x09 <= u && u <= 0x0d) || u == 0x20 || u == 0x85 || u == 0xa0 || u == 0x1680 || (0x2000
        <= u && u <= 0x200a) || u == 0x2028 || u == 0x2029 || u == 0x202f || u == 0x205f || u
        == 0x3000
}

/// Collects the characters of `s` into a vector.
pub fn chars_of(s: &str) -> (out: Vec<char>)
    ensures
        out@ == s@,
{
    let mut out: Vec<char> = Vec::new();
    for c in it: s.chars()
        invariant
            out@ == it.seq().take(it.index() as int),
    {
        out.push(c);
    }
    out
}

proof fn lemma_trim_start_skip(s: Seq<char>, a: int)
    requires
        0 <= a <= s.len(),
        forall|i: int| 0 <= i < a ==> is_whitespace(#[trigger] s[i]),
        a == s.len() || !is_whitespace(s[a]),
    ensures
        trim_start(s) == s.skip(a),
    decreases a,
{
    if a == 0 {
        assert(s.skip(0) =~= s);
    } else {
        assert(is_whitespace(s[0]));
        let t = s.drop_first();
        assert forall|i: int| 0 <= i < a - 1 implies is_whitespace(#[trigger] t[i]) by {
            assert(t[i] == s[i + 1]);
        }
        lemma_trim_start_skip(t, a - 1);
        assert(t.skip(a - 1) =~= s.skip(a));
    }
}

proof fn lemma_trim_end_take(t: Seq<char>, m: int)
    requires
        0 <= m <= t.len(),
        forall|i: int| m <= i < t.len() ==> is_whitespace(#[trigger] t[i]),
        m == 0 || !is_whitespace(t[m - 1]),
    ensures
        trim_end(t) == t.take(m),
    decreases t.len() - m,
{
    if m == t.len() {
        assert(t.take(m) =~= t);
    } else {
        assert(is_whitespace(t[t.len() - 1]));
        let u = t.drop_last();
        assert forall|i: int| m <= i < u.len() implies is_whitespace(#[trigger] u[i]) by {
            assert(u[i] == t[i]);
        }
        lemma_trim_end_take(u, m);
        assert(u.take(m) =~= t.take(m));
    }
}

/// Removes leading and trailing whitespace from `s`.
pub fn trim(s: &str) -> (out: &str)
    ensures
        out@ == trimmed(s@),
{
    let cs = chars_of(s);
    let n = cs.len();
    let mut a: usize = 0;
    while a < n && is_whitespace_char(cs[a])
        invariant
            cs@ == s@,
            n == cs.len(),
            a <= n,
            forall|i: int| 0 <= i < a ==> is_whitespace(#[trigger] cs@[i]),
        decreases n - a,
    {
        a = a + 1;
    }
    let mut b: usize = n;
    while b > a && is_whitespace_char(cs[b - 1])
        invariant
            cs@ == s@,
            n == cs.len(),
            a <= b <= n,
            forall|i: int| b <= i < n ==> is_whitespace(#[trigger] cs@[i]),
        decreases b - a,
    {
        b = b - 1;
    }
    proof {
        lemma_trim_start_skip(s@, a as int);
        let t = s@.skip(a as int);
        assert forall|i: int| (b - a) <= i < t.len() implies is_whitespace(#[trigger] t[i]) by {
            assert(t[i] == s@[i + a]);
        }
        if b > a {
            assert(t[b - a - 1] == s@[b - 1]);
        }
        lemma_trim_end_take(t, (b - a) as int);
        assert(t.take((b - a) as int) =~= s@.subrange(a as int, b as int));
    }
    s.substring_char(a, b)
}

proof fn lemma_trim_start_first(s: Seq<char>)
    ensures
        trim_start(s).len() == 0 || !is_whitespace(trim_start(s)[0]),
    decreases s.len(),
{
    if s.len() > 0 && is_whitespace(s[0]) {
        lemma_trim_start_first(s.drop_first());
    }
}

proof fn lemma_trim_end_prefix(t: Seq<char>)
    ensures
        trim_end(t).len() <= t.len(),
        trim_end(t) == t.take(trim_end(t).len() as int),
        trim_end(t).len() == 0 || !is_whitespace(trim_end(t).last()),
    decreases t.len(),
{
    if t.len() > 0 && is_whitespace(t.last()) {
        let u = t.drop_last();
        lemma_trim_end_prefix(u);
        assert(u.take(trim_end(u).len() as int) =~= t.take(trim_end(u).len() as int));
    } else {
        assert(t.take(t.len() as int) =~= t);
    }
}

/// Trimming a trimmed text changes nothing, and a non-empty trimmed text
/// starts and ends with a character that is not whitespace.
pub proof fn lemma_trimmed_idempotent(s: Seq<char>)
    ensures
        trimmed(trimmed(s)) == trimmed(s),
        trimmed(s).len() > 0 ==> !is_whitespace(trimmed(s)[0]) && !is_whitespace(
            trimmed(s).last(),
        ),
{
    let t = trim_start(s);
    let u = trim_end(t);
    lemma_trim_start_first(s);
    lemma_trim_end_prefix(t);
    if u.len() > 0 {
        assert(u[0] == t[0]);
        assert(trim_start(u) == u);
        assert(trim_end(u) == u);
    } else {
        assert(trim_start(u) == u);
        assert(trim_end(u) == u);
    }
}

proof fn lemma_trim_start_drops_whitespace(s: Seq<char>)
    ensures
        exists|a: int|
            0 <= a <= s.len() && trim_start(s) == s.skip(a) && forall|i: int|
                0 <= i < a ==> is_whitespace(#[trigger] s[i]),
    decreases s.len(),
{
    if s.len() > 0 && is_whitespace(s[0]) {
        let t = s.drop_first();
        lemma_trim_start_drops_whitespace(t);
        let a = choose|a: int|
            0 <= a <= t.len() && trim_start(t) == t.skip(a) && forall|i: int|
                0 <= i < a ==> is_whitespace(#[trigger] t[i]);
        assert(t.skip(a) =~= s.skip(a + 1));
        assert forall|i: int| 0 <= i < a + 1 implies is_whitespace(#[trigger] s[i]) by {
            if i > 0 {
                assert(s[i] == t[i - 1]);
            }
        }
    } else {
        assert(s.skip(0) =~= s);
    }
}

proof fn lemma_trim_end_drops_whitespace(t: Seq<char>)
    ensures
        exists|m: int|
            0 <= m <= t.len() && trim_end(t) == t.take(m) && forall|i: int|
                m <= i < t.len() ==> is_whitespace(#[trigger] t[i]),
    decreases t.len(),
{
    if t.len() > 0 && is_whitespace(t.last()) {
        let u = t.drop_last();
        lemma_trim_end_drops_whitespace(u);
        let m = choose|m: int|
            0 <= m <= u.len() && trim_end(u) == u.take(m) && forall|i: int|
                m <= i < u.len() ==> is_whitespace(#[trigger] u[i]);
        assert(u.take(m) =~= t.take(m));
        assert forall|i: int| m <= i < t.len() implies is_whitespace(#[trigger] t[i]) by {
            if i < u.len() {
                assert(t[i] == u[i]);
            }
        }
    } else {
        assert(t.take(t.len() as int) =~= t);
    }
}

/// Trimming removes whitespace and nothing else: the text is some
/// whitespace, then its trim, then some more whitespace.
pub proof fn lemma_trimmed_removes_only_whitespace(s: Seq<char>)
    ensures
        exists|a: int, b: int|
            0 <= a <= b <= s.len() && trimmed(s) == s.subrange(a, b) && (forall|i: int|
                0 <= i < a ==> is_whitespace(#[trigger] s[i])) && (forall|i: int|
                b <= i < s.len() ==> is_whitespace(#[trigger] s[i])),
{
    lemma_trim_start_drops_whitespace(s);
    let a = choose|a: int|
        0 <= a <= s.len() && trim_start(s) == s.skip(a) && forall|i: int|
            0 <= i < a ==> is_whitespace(#[trigger] s[i]);
    let t = s.skip(a);
    lemma_trim_end_drops_whitespace(t);
    let m = choose|m: int|
        0 <= m <= t.len() && trim_end(t) == t.take(m) && forall|i: int|
            m <= i < t.len() ==> is_whitespace(#[trigger] t[i]);
    assert(t.take(m) =~= s.subrange(a, a + m));
    assert forall|i: int| a + m <= i < s.len() implies is_whitespace(#[trigger] s[i]) by {
        assert(s[i] == t[i - a]);
    }
    assert(trimmed(s) == s.subrange(a, a + m));
}

/// A text trims to nothing exactly when all of its characters are
/// whitespace; any other character keeps its place in the trim.
pub proof fn lemma_trimmed_empty_iff_all_whitespace(s: Seq<char>)
    ensures
        trimmed(s).len() == 0 <==> forall|i: int| 0 <= i < s.len() ==> is_whitespace(#[trigger] s[i]),
        forall|i: int|
            0 <= i < s.len() && !is_whitespace(#[trigger] s[i]) ==> trimmed(s).contains(s[i]),
{
    lemma_trimmed_removes_only_whitespace(s);
    let (a, b) = choose|a: int, b: int|
        0 <= a <= b <= s.len() && trimmed(s) == s.subrange(a, b) && (forall|i: int|
            0 <= i < a ==> is_whitespace(#[trigger] s[i])) && (forall|i: int|
            b <= i < s.len() ==> is_whitespace(#[trigger] s[i]));
    assert forall|i: int| 0 <= i < s.len() && !is_whitespace(#[trigger] s[i]) implies trimmed(
        s,
    ).contains(s[i]) by {
        assert(a <= i < b);
        assert(trimmed(s)[i - a] == s[i]);
    }
    if trimmed(s).len() != 0 {
        assert(!is_whitespace(s[a])) by {
            lemma_trimmed_idempotent(s);
            assert(trimmed(s)[0] == s[a]);
        }
    }
}

/// No visible ASCII character (from `!` to `~`) is whitespace.
pub proof fn lemma_visible_ascii_not_whitespace(c: char)
    requires
        0x21 <= (c as u32) <= 0x7e,
    ensures
        !is_whitespace(c),
{
}

} // verus!
