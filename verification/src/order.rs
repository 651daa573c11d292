//! Lexicographic order over byte-string tokens, and the sorted, duplicate-free
//! domain built under that order.

use vstd::prelude::*;

verus! {

/// `a` comes no later than `b` in byte-wise lexicographic order.
pub open spec fn lex_le(a: Seq<u8>, b: Seq<u8>) -> bool
    decreases a.len(),
{
    if a.len() == 0 {
        true
    } else if b.len() == 0 {
        false
    } else if a[0] < b[0] {
        true
    } else if a[0] > b[0] {
        false
    } else {
        lex_le(a.skip(1), b.skip(1))
    }
}

/// The lexicographic order is total: any two byte strings are comparable.
pub proof fn lemma_lex_le_total(a: Seq<u8>, b: Seq<u8>)
    ensures
        lex_le(a, b) || lex_le(b, a),
    decreases a.len(),
{
    if a.len() != 0 && b.len() != 0 && a[0] == b[0] {
        lemma_lex_le_total(a.skip(1), b.skip(1));
    }
}

/// The lexicographic order is reflexive.
pub proof fn lemma_lex_le_reflexive(a: Seq<u8>)
    ensures
        lex_le(a, a),
{
    lemma_lex_le_total(a, a);
}

/// The lexicographic order is antisymmetric: mutual order means equality.
pub proof fn lemma_lex_le_antisymmetric(a: Seq<u8>, b: Seq<u8>)
    requires
        lex_le(a, b),
        lex_le(b, a),
    ensures
        a == b,
    decreases a.len(),
{
    if a.len() == 0 {
        assert(a =~= b);
    } else {
        lemma_lex_le_antisymmetric(a.skip(1), b.skip(1));
        assert(a.skip(1).len() == b.skip(1).len());
        assert forall|i: int| 0 <= i < a.len() implies a[i] == b[i] by {
            if i > 0 {
                assert(a.skip(1)[i - 1] == b.skip(1)[i - 1]);
                assert(a.skip(1)[i - 1] == a[i]);
                assert(b.skip(1)[i - 1] == b[i]);
            }
        }
        assert(a =~= b);
    }
}

/// The lexicographic order is transitive.
pub proof fn lemma_lex_le_transitive(a: Seq<u8>, b: Seq<u8>, c: Seq<u8>)
    requires
        lex_le(a, b),
        lex_le(b, c),
    ensures
        lex_le(a, c),
    decreases a.len(),
{
    if a.len() != 0 && b.len() != 0 && c.len() != 0 && a[0] == b[0] && b[0] == c[0] {
        lemma_lex_le_transitive(a.skip(1), b.skip(1), c.skip(1));
    }
}

/// Dropping an equal prefix on both sides does not change the order.
proof fn lemma_lex_le_skip(a: Seq<u8>, b: Seq<u8>, i: int)
    requires
        0 <= i <= a.len(),
        i <= b.len(),
        forall|k: int| 0 <= k < i ==> a[k] == b[k],
    ensures
        lex_le(a, b) == lex_le(a.skip(i), b.skip(i)),
    decreases i,
{
    if i > 0 {
        assert(a[0] == b[0]);
        assert(forall|k: int| 0 <= k < i - 1 ==> a.skip(1)[k] == b.skip(1)[k]);
        lemma_lex_le_skip(a.skip(1), b.skip(1), i - 1);
        assert(a.skip(1).skip(i - 1) =~= a.skip(i));
        assert(b.skip(1).skip(i - 1) =~= b.skip(i));
        assert(lex_le(a, b) == lex_le(a.skip(1), b.skip(1)));
    } else {
        assert(a.skip(0) =~= a);
        assert(b.skip(0) =~= b);
    }
}

/// Decides `lex_le` on two byte strings.
pub fn token_le(a: &Vec<u8>, b: &Vec<u8>) -> (r: bool)
    ensures
        r == lex_le(a@, b@),
{
    let mut i: usize = 0;
    loop
        invariant
            0 <= i <= a@.len(),
            i <= b@.len(),
            forall|k: int| 0 <= k < i ==> a@[k] == b@[k],
        decreases a@.len() - i,
    {
        proof {
            lemma_lex_le_skip(a@, b@, i as int);
        }
        if i == a.len() {
            return true;
        }
        if i == b.len() {
            return false;
        }
        if a[i] < b[i] {
            assert(a@.skip(i as int)[0] == a@[i as int]);
            return true;
        }
        if a[i] > b[i] {
            return false;
        }
        i = i + 1;
    }
}

/// A domain: strictly ascending under the lexicographic order, hence free of
/// duplicates.
pub open spec fn sorted_distinct(s: Seq<Seq<u8>>) -> bool {
    forall|i: int, j: int|
        0 <= i < j < s.len() ==> lex_le(#[trigger] s[i], #[trigger] s[j]) && s[i] != s[j]
}

/// The position of the first occurrence of `t` in `dom`.
pub open spec fn first_index(dom: Seq<Seq<u8>>, t: Seq<u8>) -> int
    decreases dom.len(),
{
    if dom.len() == 0 {
        0
    } else if dom[0] == t {
        0
    } else {
        1 + first_index(dom.skip(1), t)
    }
}

/// When `t` occurs in `dom`, `first_index` is a valid index, lands on `t`,
/// and nothing before it equals `t`.
pub proof fn lemma_first_index(dom: Seq<Seq<u8>>, t: Seq<u8>)
    requires
        dom.contains(t),
    ensures
        0 <= first_index(dom, t) < dom.len(),
        dom[first_index(dom, t)] == t,
        forall|k: int| 0 <= k < first_index(dom, t) ==> dom[k] != t,
    decreases dom.len(),
{
    if dom.len() > 0 && dom[0] != t {
        assert(dom.skip(1).contains(t)) by {
            let w = choose|w: int| 0 <= w < dom.len() && dom[w] == t;
            assert(dom.skip(1)[w - 1] == t);
        }
        lemma_first_index(dom.skip(1), t);
        assert(forall|k: int|
            1 <= k < first_index(dom, t) ==> dom[k] == dom.skip(1)[k - 1]);
    }
}

/// Decides equality of two byte strings through the order.
pub fn token_eq(a: &Vec<u8>, b: &Vec<u8>) -> (r: bool)
    ensures
        r == (a@ == b@),
{
    let le1 = token_le(a, b);
    let le2 = token_le(b, a);
    proof {
        if lex_le(a@, b@) && lex_le(b@, a@) {
            lemma_lex_le_antisymmetric(a@, b@);
        }
        lemma_lex_le_reflexive(a@);
    }
    le1 && le2
}

/// Copies a token byte by byte.
pub fn clone_token(t: &Vec<u8>) -> (r: Vec<u8>)
    ensures
        r@ == t@,
        r.deep_view() == t@,
{
    let mut r: Vec<u8> = Vec::new();
    let mut i: usize = 0;
    while i < t.len()
        invariant
            0 <= i <= t@.len(),
            r@ =~= t@.take(i as int),
        decreases t@.len() - i,
    {
        r.push(t[i]);
        i = i + 1;
    }
    assert(r@ =~= t@);
    assert(r.deep_view() =~= r@);
    r
}

/// A token's deep view is its plain view.
pub proof fn lemma_token_deep_view(t: Vec<u8>)
    ensures
        t.deep_view() == t@,
{
    assert(t.deep_view() =~= t@);
}

/// The first position in the sorted domain at or above `t`; everything
/// before it lies strictly below `t`.
fn lower_bound(dom: &Vec<Vec<u8>>, t: &Vec<u8>) -> (i: usize)
    requires
        sorted_distinct(dom.deep_view()),
    ensures
        0 <= i <= dom@.len(),
        forall|k: int|
            0 <= k < i ==> lex_le(#[trigger] dom.deep_view()[k], t@) && dom.deep_view()[k] != t@,
        i < dom@.len() ==> lex_le(t@, dom.deep_view()[i as int]),
{
    let ghost dv = dom.deep_view();
    let mut i: usize = 0;
    while i < dom.len()
        invariant
            dv == dom.deep_view(),
            dom@.len() == dv.len(),
            0 <= i <= dv.len(),
            forall|k: int| 0 <= k < i ==> lex_le(#[trigger] dv[k], t@) && dv[k] != t@,
        decreases dom@.len() - i,
    {
        proof {
            lemma_token_deep_view(dom@[i as int]);
        }
        if token_le(t, &dom[i]) {
            return i;
        }
        proof {
            lemma_lex_le_total(t@, dv[i as int]);
            lemma_lex_le_reflexive(t@);
        }
        i = i + 1;
    }
    i
}

/// Puts `t` into the sorted, duplicate-free domain `dom`, keeping it sorted
/// and duplicate-free; a token already present is left alone.
#[verifier::rlimit(60)]
pub fn insert_token(dom: &mut Vec<Vec<u8>>, t: &Vec<u8>)
    requires
        sorted_distinct(old(dom).deep_view()),
    ensures
        sorted_distinct(final(dom).deep_view()),
        forall|x: Seq<u8>|
            final(dom).deep_view().contains(x) <==> (old(dom).deep_view().contains(x) || x == t@),
    {
    let ghost dv = dom.deep_view();
    let i = lower_bound(dom, t);
    assert(forall|k: int| 0 <= k < i ==> lex_le(#[trigger] dv[k], t@) && dv[k] != t@);
    if i < dom.len() {
        proof {
            lemma_token_deep_view(dom@[i as int]);
        }
        if token_le(&dom[i], t) {
            // `t` is already at position `i`.
            proof {
                lemma_lex_le_antisymmetric(t@, dv[i as int]);
                assert(dv.contains(dv[i as int]));
            }
            return ;
        }
    }
    // `t` is absent: everything before `i` is strictly below, everything from
    // `i` on strictly above.
    proof {
        if i < dom@.len() {
            lemma_lex_le_reflexive(t@);
        }
    }
    assert(i < dv.len() ==> lex_le(t@, dv[i as int]) && dv[i as int] != t@);
    let tc = clone_token(t);
    dom.insert(i, tc);
    proof {
        let ii = i as int;
        let new_dv = dom.deep_view();
        old(dom)@.insert_ensures(ii, tc);
        assert(new_dv.len() == dv.len() + 1);
        assert forall|k: int| 0 <= k < new_dv.len() implies new_dv[k] == (if k < ii {
            dv[k]
        } else if k == ii {
            t@
        } else {
            dv[k - 1]
        }) by {
            if k < ii {
                assert(dom@[k] == old(dom)@[k]);
                assert(dom@[k].deep_view() == new_dv[k]);
            } else if k == ii {
                assert(dom@[k] == tc);
                assert(dom@[k].deep_view() == new_dv[k]);
                assert(tc.deep_view() == t@);
            } else {
                assert(dom@[k] == old(dom)@[k - 1]);
                assert(dom@[k].deep_view() == new_dv[k]);
            }
        }
        assert forall|p: int, q: int| 0 <= p < q < new_dv.len() implies lex_le(
            new_dv[p],
            new_dv[q],
        ) && new_dv[p] != new_dv[q] by {
            let ii = i as int;
            if p < ii && q < ii {
            } else if p < ii && q == ii {
                // dv[p] < t
                lemma_lex_le_total(t@, dv[p]);
            } else if p < ii && q > ii {
            } else if p == ii && q > ii {
                // t <= dv[i] <= dv[q-1], and t != dv[q-1]
                assert(lex_le(t@, dv[ii]));
                if q - 1 > ii {
                    lemma_lex_le_transitive(t@, dv[ii], dv[q - 1]);
                    if t@ == dv[q - 1] {
                        lemma_lex_le_antisymmetric(t@, dv[ii]);
                    }
                }
            } else {
            }
        }
        assert forall|x: Seq<u8>| new_dv.contains(x) <==> (dv.contains(x) || x == t@) by {
            if new_dv.contains(x) {
                let k = choose|k: int| 0 <= k < new_dv.len() && new_dv[k] == x;
                if k < i {
                    assert(dv[k] == x);
                    assert(dv.contains(x));
                } else if k > i {
                    assert(dv[k - 1] == x);
                    assert(dv.contains(x));
                }
            }
            if dv.contains(x) {
                let k = choose|k: int| 0 <= k < dv.len() && dv[k] == x;
                if k < i {
                    assert(new_dv[k] == x);
                    assert(new_dv.contains(x));
                } else {
                    assert(new_dv[k + 1] == x);
                    assert(new_dv.contains(x));
                }
            }
            if x == t@ {
                assert(new_dv[i as int] == x);
                assert(new_dv.contains(x));
            }
        }
    }
}

/// A chain of adjacent bounds orders any pair.
proof fn lemma_lex_le_chain(s: Seq<Seq<u8>>, p: int, q: int)
    requires
        forall|w: int|
            0 <= w < s.len() - 1 ==> lex_le(#[trigger] s[w], s[w + 1]) && s[w] != s[w + 1],
        0 <= p < q < s.len(),
    ensures
        lex_le(s[p], s[q]) && s[p] != s[q],
    decreases q - p,
{
    if q > p + 1 {
        lemma_lex_le_chain(s, p, q - 1);
        lemma_lex_le_transitive(s[p], s[q - 1], s[q]);
        if s[p] == s[q] {
            lemma_lex_le_antisymmetric(s[p], s[q - 1]);
        }
    }
}

/// A sequence whose adjacent pairs ascend strictly is sorted and
/// duplicate-free throughout.
pub proof fn lemma_adjacent_implies_sorted(s: Seq<Seq<u8>>)
    requires
        forall|w: int|
            0 <= w < s.len() - 1 ==> lex_le(#[trigger] s[w], s[w + 1]) && s[w] != s[w + 1],
    ensures
        sorted_distinct(s),
{
    assert forall|i: int, j: int| 0 <= i < j < s.len() implies lex_le(#[trigger] s[i], #[trigger] s[j])
        && s[i] != s[j] by {
        lemma_lex_le_chain(s, i, j);
    }
}

/// Two sorted, duplicate-free domains with the same members are the same
/// sequence: the domain of a model is determined by the set of distinct
/// tokens alone, independently of the order they were seen in.
pub proof fn lemma_sorted_distinct_unique(a: Seq<Seq<u8>>, b: Seq<Seq<u8>>)
    requires
        sorted_distinct(a),
        sorted_distinct(b),
        forall|x: Seq<u8>| a.contains(x) <==> b.contains(x),
    ensures
        a == b,
    decreases a.len(),
{
    if a.len() == 0 {
        assert(b.len() == 0) by {
            if b.len() > 0 {
                assert(b.contains(b[0]));
            }
        }
        assert(a =~= b);
    } else {
        assert(b.len() > 0) by {
            assert(a.contains(a[0]));
        }
        // The heads are the least members, so they agree.
        assert(a[0] == b[0]) by {
            assert(a.contains(a[0]));
            assert(b.contains(b[0]));
            assert(b.contains(a[0]));
            assert(a.contains(b[0]));
            let ia = choose|i: int| 0 <= i < b.len() && b[i] == a[0];
            let ib = choose|i: int| 0 <= i < a.len() && a[i] == b[0];
            assert(0 <= ia < b.len() && b[ia] == a[0]);
            assert(0 <= ib < a.len() && a[ib] == b[0]);
            if ia > 0 {
                assert(lex_le(b[0], b[ia]));
            }
            if ib > 0 {
                assert(lex_le(a[0], a[ib]));
            }
            if ia > 0 && ib > 0 {
                lemma_lex_le_antisymmetric(a[0], b[0]);
            }
            lemma_lex_le_reflexive(a[0]);
        }
        // The tails hold the same members: the head occurs in neither tail.
        assert(forall|x: Seq<u8>| a.skip(1).contains(x) <==> b.skip(1).contains(x)) by {
            assert(forall|x: Seq<u8>| #[trigger] a.skip(1).contains(x) ==> b.skip(1).contains(x)) by {
                assert forall|x: Seq<u8>| #[trigger] a.skip(1).contains(x) implies b.skip(1).contains(x) by {
                    let k = choose|k: int| 0 <= k < a.skip(1).len() && a.skip(1)[k] == x;
                    assert(a[k + 1] == x);
                    assert(a.contains(x));
                    assert(x != a[0]);
                    let w = choose|w: int| 0 <= w < b.len() && b[w] == x;
                    assert(w != 0);
                    assert(b.skip(1)[w - 1] == x);
                }
            }
            assert(forall|x: Seq<u8>| #[trigger] b.skip(1).contains(x) ==> a.skip(1).contains(x)) by {
                assert forall|x: Seq<u8>| #[trigger] b.skip(1).contains(x) implies a.skip(1).contains(x) by {
                    let k = choose|k: int| 0 <= k < b.skip(1).len() && b.skip(1)[k] == x;
                    assert(b[k + 1] == x);
                    assert(b.contains(x));
                    assert(x != b[0]);
                    let w = choose|w: int| 0 <= w < a.len() && a[w] == x;
                    assert(w != 0);
                    assert(a.skip(1)[w - 1] == x);
                }
            }
        }
        assert(sorted_distinct(a.skip(1))) by {
            assert(forall|i: int, j: int|
                0 <= i < j < a.skip(1).len() ==> a.skip(1)[i] == a[i + 1] && a.skip(1)[j] == a[j + 1]);
        }
        assert(sorted_distinct(b.skip(1))) by {
            assert(forall|i: int, j: int|
                0 <= i < j < b.skip(1).len() ==> b.skip(1)[i] == b[i + 1] && b.skip(1)[j] == b[j + 1]);
        }
        lemma_sorted_distinct_unique(a.skip(1), b.skip(1));
        assert(a =~= b) by {
            assert(forall|i: int|
                1 <= i < a.len() ==> a[i] == a.skip(1)[i - 1] && b[i] == b.skip(1)[i - 1]);
        }
    }
}

} // verus!
