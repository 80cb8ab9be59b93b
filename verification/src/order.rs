//! The order of strings, as sequences of characters compared by code point;
//! sequences kept in that order; sequences with repetitions left out.

use vstd::prelude::*;

verus! {

/// `a` comes strictly before `b`: at the first position where they differ,
/// `a` has the smaller code point, or `a` is a proper prefix of `b`. This is
/// the order of `str` and `String`, which compare their UTF-8 bytes
/// lexicographically and so order strings by the code points of their
/// characters.
pub open spec fn str_lt(a: Seq<char>, b: Seq<char>) -> bool
    decreases a.len(),
{
    if a.len() == 0 {
        b.len() > 0
    } else if b.len() == 0 {
        false
    } else if a[0] != b[0] {
        (a[0] as u32) < (b[0] as u32)
    } else {
        str_lt(a.drop_first(), b.drop_first())
    }
}

/// `a` comes before `b` or equals it.
pub open spec fn str_le(a: Seq<char>, b: Seq<char>) -> bool {
    a == b || str_lt(a, b)
}

/// Every element comes before or equals every later one.
pub open spec fn sorted(s: Seq<Seq<char>>) -> bool {
    forall|i: int, j: int| 0 <= i < j < s.len() ==> str_le(#[trigger] s[i], #[trigger] s[j])
}

/// Every element comes strictly before every later one.
pub open spec fn strictly_sorted(s: Seq<Seq<char>>) -> bool {
    forall|i: int, j: int| 0 <= i < j < s.len() ==> str_lt(#[trigger] s[i], #[trigger] s[j])
}

/// `p` lists the distinct elements of `s`, each once, in ascending order.
pub open spec fn is_sorted_set_of(p: Seq<Seq<char>>, s: Seq<Seq<char>>) -> bool {
    strictly_sorted(p) && p.to_set() == s.to_set()
}

/// No string comes strictly before itself or before a string that comes
/// strictly before it.
pub proof fn lemma_str_lt_asymmetric(a: Seq<char>, b: Seq<char>)
    ensures
        !(str_lt(a, b) && str_lt(b, a)),
    decreases a.len(),
{
    if a.len() > 0 && b.len() > 0 && a[0] == b[0] {
        lemma_str_lt_asymmetric(a.drop_first(), b.drop_first());
    }
}

/// A sorted sequence without duplicates is strictly sorted.
pub proof fn lemma_sorted_distinct_strictly(s: Seq<Seq<char>>)
    requires
        sorted(s),
        s.no_duplicates(),
    ensures
        strictly_sorted(s),
{
    assert forall|i: int, j: int| 0 <= i < j < s.len() implies str_lt(#[trigger] s[i], #[trigger] s[j]) by {
        assert(str_le(s[i], s[j]));
    }
}

/// A strictly sorted sequence has no duplicates.
pub proof fn lemma_strictly_sorted_distinct(s: Seq<Seq<char>>)
    requires
        strictly_sorted(s),
    ensures
        s.no_duplicates(),
{
    assert forall|i: int, j: int| 0 <= i < s.len() && 0 <= j < s.len() && i != j implies s[i] != s[j] by {
        if i < j {
            assert(str_lt(s[i], s[j]));
            lemma_str_lt_asymmetric(s[i], s[j]);
        } else {
            assert(str_lt(s[j], s[i]));
            lemma_str_lt_asymmetric(s[j], s[i]);
        }
    }
}

/// Two strictly sorted sequences with the same elements are equal: the sorted
/// list of the distinct strings of a collection is determined by the
/// collection.
pub proof fn lemma_sorted_set_unique(a: Seq<Seq<char>>, b: Seq<Seq<char>>)
    requires
        strictly_sorted(a),
        strictly_sorted(b),
        a.to_set() == b.to_set(),
    ensures
        a == b,
    decreases a.len(),
{
    lemma_strictly_sorted_distinct(a);
    lemma_strictly_sorted_distinct(b);
    if a.len() == 0 {
        if b.len() > 0 {
            assert(a.to_set().contains(b[0]));
        }
        assert(a =~= b);
    } else if b.len() == 0 {
        assert(b.to_set().contains(a[0]));
    } else {
        assert(b.to_set().contains(a[0]));
        assert(a.to_set().contains(b[0]));
        let j = choose|j: int| 0 <= j < b.len() && b[j] == a[0];
        let i = choose|i: int| 0 <= i < a.len() && a[i] == b[0];
        if j > 0 {
            assert(str_lt(b[0], b[j]));
            if i > 0 {
                assert(str_lt(a[0], a[i]));
                lemma_str_lt_asymmetric(a[0], a[i]);
            }
        }
        assert(a[0] == b[0]);
        let a1 = a.drop_first();
        let b1 = b.drop_first();
        assert forall|x: Seq<char>| a1.to_set().contains(x) <==> b1.to_set().contains(x) by {
            if a1.to_set().contains(x) {
                let k = choose|k: int| 0 <= k < a1.len() && a1[k] == x;
                assert(a[k + 1] == x);
                assert(a.to_set().contains(x));
                assert(b.to_set().contains(x));
                let m = choose|m: int| 0 <= m < b.len() && b[m] == x;
                assert(m != 0);
                assert(b1[m - 1] == x);
            }
            if b1.to_set().contains(x) {
                let k = choose|k: int| 0 <= k < b1.len() && b1[k] == x;
                assert(b[k + 1] == x);
                assert(b.to_set().contains(x));
                assert(a.to_set().contains(x));
                let m = choose|m: int| 0 <= m < a.len() && a[m] == x;
                assert(m != 0);
                assert(a1[m - 1] == x);
            }
        }
        assert(a1.to_set() =~= b1.to_set());
        lemma_sorted_set_unique(a1, b1);
        assert(a =~= b) by {
            assert forall|k: int| 0 <= k < a.len() implies a[k] == b[k] by {
                if k > 0 {
                    assert(a[k] == a1[k - 1]);
                    assert(b[k] == b1[k - 1]);
                }
            }
        }
    }
}

/// The first occurrence of each element of `s`, in the order of `s`.
pub open spec fn first_occurrences(s: Seq<Seq<char>>) -> Seq<Seq<char>>
    decreases s.len(),
{
    if s.len() == 0 {
        Seq::empty()
    } else {
        let p = first_occurrences(s.drop_last());
        if p.contains(s.last()) {
            p
        } else {
            p.push(s.last())
        }
    }
}

/// Leaving out repetitions leaves no duplicates.
pub proof fn lemma_first_occurrences_distinct(s: Seq<Seq<char>>)
    ensures
        first_occurrences(s).no_duplicates(),
    decreases s.len(),
{
    if s.len() > 0 {
        lemma_first_occurrences_distinct(s.drop_last());
    }
}

/// Leaving out repetitions keeps every element.
pub proof fn lemma_first_occurrences_to_set(s: Seq<Seq<char>>)
    ensures
        first_occurrences(s).to_set() == s.to_set(),
    decreases s.len(),
{
    if s.len() > 0 {
        let d = s.drop_last();
        lemma_first_occurrences_to_set(d);
        assert(d.push(s.last()) =~= s);
        let p = first_occurrences(d);
        let f = first_occurrences(s);
        assert(p.to_set() == d.to_set());
        assert forall|x: Seq<char>| f.to_set().contains(x) <==> s.to_set().contains(x) by {
            if f.to_set().contains(x) {
                let k = choose|k: int| 0 <= k < f.len() && f[k] == x;
                if k < p.len() {
                    assert(p[k] == x);
                    assert(p.to_set().contains(x));
                    assert(d.to_set().contains(x));
                    let m = choose|m: int| 0 <= m < d.len() && d[m] == x;
                    assert(s[m] == x);
                } else {
                    assert(x == s.last());
                    assert(s[s.len() - 1] == x);
                }
            }
            if s.to_set().contains(x) {
                let k = choose|k: int| 0 <= k < s.len() && s[k] == x;
                if k < d.len() {
                    assert(d[k] == x);
                    assert(d.to_set().contains(x));
                    assert(p.to_set().contains(x));
                    let m = choose|m: int| 0 <= m < p.len() && p[m] == x;
                    assert(f[m] == x);
                } else if p.contains(x) {
                    let m = choose|m: int| 0 <= m < p.len() && p[m] == x;
                    assert(f[m] == x);
                } else {
                    assert(f[f.len() - 1] == x);
                }
            }
        }
        assert(f.to_set() =~= s.to_set());
    }
}

/// A sequence without duplicates has no repetitions to leave out.
pub proof fn lemma_first_occurrences_of_distinct(s: Seq<Seq<char>>)
    requires
        s.no_duplicates(),
    ensures
        first_occurrences(s) == s,
    decreases s.len(),
{
    if s.len() > 0 {
        let d = s.drop_last();
        lemma_first_occurrences_of_distinct(d);
        assert(!d.contains(s.last())) by {
            if d.contains(s.last()) {
                let k = choose|k: int| 0 <= k < d.len() && d[k] == s.last();
                assert(s[k] == s[s.len() - 1]);
            }
        }
        assert(d.push(s.last()) =~= s);
    }
}

/// The order of strings, told without recursion: `a` comes strictly before
/// `b` exactly when, after their longest common start, either `a` ends and
/// `b` goes on, or `a`'s next character has the smaller code point.
pub proof fn lemma_str_lt_first_difference(a: Seq<char>, b: Seq<char>)
    ensures
        str_lt(a, b) <==> exists|k: int|
            0 <= k <= a.len() && k <= b.len() && #[trigger] a.take(k) == b.take(k) && ((k == a.len()
                && k < b.len()) || (k < a.len() && k < b.len() && (a[k] as u32) < (b[k] as u32))),
    decreases a.len(),
{
    if a.len() > 0 && b.len() > 0 {
        let a1 = a.drop_first();
        let b1 = b.drop_first();
        lemma_str_lt_first_difference(a1, b1);
        if str_lt(a, b) {
            if a[0] != b[0] {
                assert(a.take(0) =~= b.take(0));
            } else {
                let k = choose|k: int|
                    0 <= k <= a1.len() && k <= b1.len() && #[trigger] a1.take(k) == b1.take(k) && ((k
                        == a1.len() && k < b1.len()) || (k < a1.len() && k < b1.len() && (a1[k] as u32)
                        < (b1[k] as u32)));
                assert(a.take(k + 1) =~= seq![a[0]] + a1.take(k));
                assert(b.take(k + 1) =~= seq![b[0]] + b1.take(k));
                assert(a.take(k + 1) == b.take(k + 1));
            }
        }
        if exists|k: int|
            0 <= k <= a.len() && k <= b.len() && #[trigger] a.take(k) == b.take(k) && ((k == a.len()
                && k < b.len()) || (k < a.len() && k < b.len() && (a[k] as u32) < (b[k] as u32))) {
            let k = choose|k: int|
                0 <= k <= a.len() && k <= b.len() && #[trigger] a.take(k) == b.take(k) && ((k
                    == a.len() && k < b.len()) || (k < a.len() && k < b.len() && (a[k] as u32) < (
                b[k] as u32)));
            if k > 0 {
                assert(a.take(k)[0] == b.take(k)[0]);
                assert(a[0] == b[0]);
                assert(a1.take(k - 1) =~= a.take(k).drop_first());
                assert(b1.take(k - 1) =~= b.take(k).drop_first());
                assert(a1.take(k - 1) == b1.take(k - 1));
            }
        }
    } else if a.len() == 0 {
        if b.len() > 0 {
            assert(a.take(0) =~= b.take(0));
        }
    }
}

/// Any two different strings are ordered one way or the other.
pub proof fn lemma_str_lt_total(a: Seq<char>, b: Seq<char>)
    requires
        a != b,
    ensures
        str_lt(a, b) || str_lt(b, a),
    decreases a.len(),
{
    if a.len() > 0 && b.len() > 0 && a[0] == b[0] {
        let a1 = a.drop_first();
        let b1 = b.drop_first();
        if a1 == b1 {
            assert(a =~= seq![a[0]] + a1);
            assert(b =~= seq![b[0]] + b1);
        }
        lemma_str_lt_total(a1, b1);
    } else if a.len() > 0 && b.len() > 0 {
        vstd::utf8::char_u32_cast(a[0], a[0] as u32);
        vstd::utf8::char_u32_cast(b[0], b[0] as u32);
    } else if a.len() == 0 && b.len() == 0 {
        assert(a =~= b);
    }
}

/// Every element listed in `f` before another one occurs in `s` before
/// every occurrence of that other one.
pub open spec fn in_order_of_appearance(s: Seq<Seq<char>>, f: Seq<Seq<char>>) -> bool {
    forall|i: int, j: int, q: int|
        #![trigger s[q], f[j], f[i]]
        0 <= i < j < f.len() && 0 <= q < s.len() && s[q] == f[j] ==> occurs_before(s, f[i], q)
}

/// `x` occurs in `s` at a position before `q`.
pub open spec fn occurs_before(s: Seq<Seq<char>>, x: Seq<char>, q: int) -> bool {
    exists|p: int| 0 <= p < q && s[p] == x
}

/// Leaving out repetitions keeps the order of first appearance: an element
/// listed before another one occurs in `s` before every occurrence of that
/// other one.
pub proof fn lemma_first_occurrences_order(s: Seq<Seq<char>>)
    ensures
        in_order_of_appearance(s, first_occurrences(s)),
    decreases s.len(),
{
    if s.len() > 0 {
        let d = s.drop_last();
        let x = s.last();
        let f = first_occurrences(s);
        let g = first_occurrences(d);
        lemma_first_occurrences_order(d);
        lemma_first_occurrences_to_set(d);
        assert forall|i: int, j: int, q: int|
            #![trigger s[q], f[j], f[i]]
            0 <= i < j < f.len() && 0 <= q < s.len() && s[q] == f[j] implies occurs_before(
            s,
            f[i],
            q,
        ) by {
            assert(f[i] == g[i]);
            assert(g.to_set().contains(g[i]));
            assert(d.to_set().contains(g[i]));
            let p0 = choose|p0: int| 0 <= p0 < d.len() && d[p0] == g[i];
            assert(s[p0] == f[i]);
            if j < g.len() {
                assert(f[j] == g[j]);
                if q < d.len() {
                    assert(d[q] == g[j]);
                    assert(occurs_before(d, g[i], q));
                    let p = choose|p: int| 0 <= p < q && d[p] == g[i];
                    assert(s[p] == f[i]);
                } else {
                    assert(g.to_set().contains(g[j]));
                    assert(d.to_set().contains(g[j]));
                    let q2 = choose|q2: int| 0 <= q2 < d.len() && d[q2] == g[j];
                    assert(d[q2] == g[j]);
                    assert(occurs_before(d, g[i], q2));
                    let p = choose|p: int| 0 <= p < q2 && d[p] == g[i];
                    assert(s[p] == f[i]);
                }
            } else {
                assert(!g.contains(x));
                assert(f[j] == x);
                if q < d.len() {
                    assert(d[q] == x);
                    assert(d.to_set().contains(x));
                    assert(g.to_set().contains(x));
                }
                assert(p0 < q);
            }
        }
        assert(in_order_of_appearance(s, f));
    } else {
        assert(first_occurrences(s).len() == 0);
        assert(in_order_of_appearance(s, first_occurrences(s)));
    }
}

} // verus!
