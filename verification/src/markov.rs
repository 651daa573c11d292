//! The Markov model: a sorted domain of distinct tokens, a cumulative
//! transition-count table derived from a training sequence, and a cursor
//! driving stateful sampling.

use vstd::prelude::*;
use crate::order::lex_le;
use crate::order::sorted_distinct;
use crate::order::first_index;
use crate::order::lemma_first_index;
use crate::order::token_le;
use crate::order::insert_token;
use crate::order::clone_token;
use crate::order::lemma_token_deep_view;
use crate::order::lemma_sorted_distinct_unique;
use crate::rng::rng_below;

verus! {

/// What can go wrong: a model built from nothing, or sampling with nowhere
/// to go.
#[derive(Clone, Copy, Debug, PartialEq, Eq, Structural)]
pub enum MarkovError {
    /// Construction was handed an empty training sequence.
    InvalidModel,
    /// Sampling found no live row to draw from: every domain token is a dead
    /// end.
    NoValidTransition,
}

/// A first-order Markov model over byte-string tokens.
///
/// `elements` is the domain: the distinct tokens of the training sequence in
/// ascending lexicographic order. `cm_dist` is a square table whose row `i`
/// holds, per destination `j`, the cumulative count of observed transitions
/// from token `i` to tokens `0..=j`; the final entry of a row is the row's
/// total. A row whose total is zero is dead: token `i` was never seen as a
/// transition source. `pre_index` is the cursor: the row the last emitted
/// token lives in, or the domain size as the sentinel for a fresh start.
#[derive(Debug)]
pub struct MarkovModel {
    /// The domain: distinct training tokens in ascending lexicographic order.
    pub elements: Vec<Vec<u8>>,
    /// Cumulative transition counts, one square row per source token.
    pub cm_dist: Vec<Vec<u64>>,
    /// The cursor: a row index, or the domain size as the sentinel.
    pub pre_index: usize,
}

/// The number of consecutive pairs `(src, dst)` in the index sequence.
pub open spec fn trans_count(inds: Seq<int>, src: int, dst: int) -> nat
    decreases inds.len(),
{
    if inds.len() < 2 {
        0
    } else {
        trans_count(inds.drop_last(), src, dst) + if inds[inds.len() - 2] == src
            && inds[inds.len() - 1] == dst {
            1nat
        } else {
            0nat
        }
    }
}

/// The number of consecutive pairs leaving `src` for any destination at or
/// below `dst_up_to`: the cumulative transition count.
pub open spec fn cum_trans_count(inds: Seq<int>, src: int, dst_up_to: int) -> nat
    decreases inds.len(),
{
    if inds.len() < 2 {
        0
    } else {
        cum_trans_count(inds.drop_last(), src, dst_up_to) + if inds[inds.len() - 2] == src
            && inds[inds.len() - 1] <= dst_up_to {
            1nat
        } else {
            0nat
        }
    }
}

/// Each training token mapped to its domain index.
pub open spec fn index_seq(dom: Seq<Seq<u8>>, toks: Seq<Seq<u8>>) -> Seq<int> {
    Seq::new(toks.len(), |k: int| first_index(dom, toks[k]))
}

/// The cumulative count one column further takes in exactly the transitions
/// into that column.
pub proof fn lemma_cum_step(inds: Seq<int>, src: int, dst: int)
    ensures
        cum_trans_count(inds, src, dst) == cum_trans_count(inds, src, dst - 1) + trans_count(
            inds,
            src,
            dst,
        ),
    decreases inds.len(),
{
    if inds.len() >= 2 {
        lemma_cum_step(inds.drop_last(), src, dst);
    }
}

/// Cumulative counts never exceed the length of the index sequence.
pub proof fn lemma_cum_bound(inds: Seq<int>, src: int, dst_up_to: int)
    ensures
        cum_trans_count(inds, src, dst_up_to) <= inds.len(),
    decreases inds.len(),
{
    if inds.len() >= 2 {
        lemma_cum_bound(inds.drop_last(), src, dst_up_to);
    }
}

/// Transition counts never exceed the length of the index sequence.
pub proof fn lemma_trans_bound(inds: Seq<int>, src: int, dst: int)
    ensures
        trans_count(inds, src, dst) <= inds.len(),
    decreases inds.len(),
{
    if inds.len() >= 2 {
        lemma_trans_bound(inds.drop_last(), src, dst);
    }
}

/// A negative column bound admits no destination at all.
pub proof fn lemma_cum_below_zero(inds: Seq<int>, src: int, dst_up_to: int)
    requires
        forall|w: int| 0 <= w < inds.len() ==> #[trigger] inds[w] >= 0,
        dst_up_to < 0,
    ensures
        cum_trans_count(inds, src, dst_up_to) == 0,
    decreases inds.len(),
{
    if inds.len() >= 2 {
        assert(forall|w: int|
            0 <= w < inds.drop_last().len() ==> #[trigger] inds.drop_last()[w] == inds[w]);
        lemma_cum_below_zero(inds.drop_last(), src, dst_up_to);
        assert(inds[inds.len() - 1] >= 0);
    }
}

/// The number of consecutive pairs leaving `src`, whatever the destination:
/// the row's total transition count.
pub open spec fn out_count(inds: Seq<int>, src: int) -> nat
    decreases inds.len(),
{
    if inds.len() < 2 {
        0
    } else {
        out_count(inds.drop_last(), src) + if inds[inds.len() - 2] == src {
            1nat
        } else {
            0nat
        }
    }
}

/// Law: the final entry of a cumulative row is exactly the row's total.
/// With every destination inside the domain, the cumulative count up to the
/// last column counts every transition leaving `src` — the integer analogue
/// of a normalized row ending at one.
pub proof fn lemma_last_entry_is_row_total(inds: Seq<int>, src: int, n: int)
    requires
        forall|w: int| 0 <= w < inds.len() ==> 0 <= #[trigger] inds[w] < n,
    ensures
        cum_trans_count(inds, src, n - 1) == out_count(inds, src),
    decreases inds.len(),
{
    if inds.len() >= 2 {
        assert(forall|w: int|
            0 <= w < inds.drop_last().len() ==> #[trigger] inds.drop_last()[w] == inds[w]);
        lemma_last_entry_is_row_total(inds.drop_last(), src, n);
        assert(inds[inds.len() - 1] <= n - 1);
    }
}

/// Appending one index adds exactly the one new pair.
pub proof fn lemma_trans_count_push(s: Seq<int>, x: int, src: int, dst: int)
    ensures
        trans_count(s.push(x), src, dst) == trans_count(s, src, dst) + if s.len() >= 1
            && s.last() == src && x == dst {
            1int
        } else {
            0int
        },
{
    assert(s.push(x).drop_last() =~= s);
    assert(s.push(x)[s.push(x).len() - 1] == x);
    if s.len() >= 1 {
        assert(s.push(x)[s.push(x).len() - 2] == s.last());
    }
}

/// `j` is the column the draw `d` selects in a cumulative row: the first
/// column whose cumulative value exceeds `d`, or the last column when none
/// does.
pub open spec fn is_selected(row: Seq<u64>, d: u64, j: int) -> bool {
    &&& 0 <= j < row.len()
    &&& (d < row[j] || j == row.len() - 1)
    &&& forall|k: int| 0 <= k < j ==> #[trigger] row[k] <= d
}

/// The selected column is unique: selection is a function of the row and the
/// draw, so a run of draws determines the emitted tokens exactly.
pub proof fn lemma_selected_unique(row: Seq<u64>, d: u64, j1: int, j2: int)
    requires
        is_selected(row, d, j1),
        is_selected(row, d, j2),
    ensures
        j1 == j2,
{
    if j1 < j2 {
        assert(row[j1] <= d);
    }
    if j2 < j1 {
        assert(row[j2] <= d);
    }
}

/// Scans a cumulative row left to right and returns the first column whose
/// value exceeds the draw `d`, or the last column when none does.
pub fn select_index(row: &Vec<u64>, d: u64) -> (j: usize)
    requires
        row@.len() >= 1,
    ensures
        is_selected(row@, d, j as int),
{
    let mut i: usize = 0;
    while i < row.len()
        invariant
            0 <= i <= row@.len(),
            forall|k: int| 0 <= k < i ==> #[trigger] row@[k] <= d,
        decreases row@.len() - i,
    {
        if d < row[i] {
            return i;
        }
        i = i + 1;
    }
    row.len() - 1
}

/// One more element of `s` taken: the members grow by exactly `s[i]`.
proof fn lemma_take_step_contains<A>(s: Seq<A>, i: int)
    requires
        0 <= i < s.len(),
    ensures
        forall|x: A| s.take(i + 1).contains(x) <==> (s.take(i).contains(x) || x == s[i]),
{
    assert forall|x: A| s.take(i + 1).contains(x) <==> (s.take(i).contains(x) || x == s[i]) by {
        if s.take(i + 1).contains(x) {
            let k = choose|k: int| 0 <= k < s.take(i + 1).len() && #[trigger] s.take(i + 1)[k] == x;
            if k < i {
                assert(s.take(i)[k] == x);
                assert(s.take(i).contains(x));
            } else {
                assert(x == s[i]);
            }
        }
        if s.take(i).contains(x) {
            let k = choose|k: int| 0 <= k < s.take(i).len() && #[trigger] s.take(i)[k] == x;
            assert(s.take(i + 1)[k] == x);
            assert(s.take(i + 1).contains(x));
        }
        if x == s[i] {
            assert(s.take(i + 1)[i] == x);
            assert(s.take(i + 1).contains(x));
        }
    }
}

/// The sorted domain of the distinct tokens of `tokens`.
fn build_domain(tokens: &Vec<Vec<u8>>) -> (dom: Vec<Vec<u8>>)
    ensures
        sorted_distinct(dom.deep_view()),
        forall|x: Seq<u8>| dom.deep_view().contains(x) <==> tokens.deep_view().contains(x),
{
    let ghost toks = tokens.deep_view();
    let mut dom: Vec<Vec<u8>> = Vec::new();
    let mut idx: usize = 0;
    while idx < tokens.len()
        invariant
            0 <= idx <= tokens@.len(),
            toks == tokens.deep_view(),
            toks.len() == tokens@.len(),
            sorted_distinct(dom.deep_view()),
            forall|x: Seq<u8>|
                dom.deep_view().contains(x) <==> toks.take(idx as int).contains(x),
        decreases tokens@.len() - idx,
    {
        proof {
            lemma_token_deep_view(tokens@[idx as int]);
            assert(toks[idx as int] == tokens@[idx as int]@);
        }
        let ghost before_dv = dom.deep_view();
        insert_token(&mut dom, &tokens[idx]);
        proof {
            lemma_take_step_contains(toks, idx as int);
            assert forall|x: Seq<u8>|
                dom.deep_view().contains(x) <==> toks.take(idx as int + 1).contains(x) by {
                assert(dom.deep_view().contains(x) <==> (before_dv.contains(x) || x == toks[
                    idx as int
                ]));
                assert(before_dv.contains(x) <==> toks.take(idx as int).contains(x));
                assert(toks.take(idx as int + 1).contains(x) <==> (toks.take(
                    idx as int,
                ).contains(x) || x == toks[idx as int]));
            }
        }
        idx = idx + 1;
    }
    proof {
        assert(toks.take(toks.len() as int) =~= toks);
    }
    dom
}

/// A square matrix of zeroes.
fn zero_matrix(n: usize) -> (m: Vec<Vec<u64>>)
    ensures
        m@.len() == n,
        forall|s: int| 0 <= s < n ==> (#[trigger] m@[s])@.len() == n,
        forall|s: int, d: int| 0 <= s < n && 0 <= d < n ==> m@[s]@[d] == 0,
{
    let mut m: Vec<Vec<u64>> = Vec::new();
    while m.len() < n
        invariant
            m@.len() <= n,
            forall|s: int| 0 <= s < m@.len() ==> (#[trigger] m@[s])@.len() == n,
            forall|s: int, d: int| 0 <= s < m@.len() && 0 <= d < n ==> m@[s]@[d] == 0,
        decreases n - m@.len(),
    {
        let mut zrow: Vec<u64> = Vec::new();
        while zrow.len() < n
            invariant
                zrow@.len() <= n,
                forall|d: int| 0 <= d < zrow@.len() ==> zrow@[d] == 0,
            decreases n - zrow@.len(),
        {
            zrow.push(0);
        }
        m.push(zrow);
    }
    m
}

/// Adds one to cell `(i, j)` of the matrix.
fn bump(m: &mut Vec<Vec<u64>>, i: usize, j: usize)
    requires
        i < old(m)@.len(),
        j < old(m)@[i as int]@.len(),
        old(m)@[i as int]@[j as int] < u64::MAX,
    ensures
        final(m)@.len() == old(m)@.len(),
        forall|s: int| 0 <= s < old(m)@.len() && s != i ==> final(m)@[s] == old(m)@[s],
        final(m)@[i as int]@ == old(m)@[i as int]@.update(
            j as int,
            (old(m)@[i as int]@[j as int] + 1) as u64,
        ),
{
    let row = &mut m[i];
    let v = row[j];
    row[j] = v + 1;
}

/// The position of `t` in the domain.
fn find_index(dom: &Vec<Vec<u8>>, t: &Vec<u8>) -> (i: usize)
    requires
        dom.deep_view().contains(t@),
    ensures
        i < dom@.len(),
        i as int == first_index(dom.deep_view(), t@),
        dom.deep_view()[i as int] == t@,
{
    let ghost dv = dom.deep_view();
    let mut i: usize = 0;
    while i < dom.len()
        invariant
            dv == dom.deep_view(),
            dom@.len() == dv.len(),
            0 <= i <= dv.len(),
            dv.contains(t@),
            forall|w: int| 0 <= w < i ==> dv[w] != t@,
        decreases dv.len() - i,
    {
        proof {
            lemma_token_deep_view(dom@[i as int]);
        }
        if crate::order::token_eq(&dom[i], t) {
            proof {
                lemma_first_index(dv, t@);
                let fi = first_index(dv, t@);
                if fi < i as int {
                    assert(dv[fi] != t@);
                }
                if fi > i as int {
                    assert(dv[i as int] != t@);
                }
            }
            return i;
        }
        i = i + 1;
    }
    proof {
        let w = choose|w: int| 0 <= w < dv.len() && dv[w] == t@;
        assert(false);
    }
    0
}

/// Copies a table row entry by entry.
fn clone_row(r: &Vec<u64>) -> (c: Vec<u64>)
    ensures
        c@ == r@,
{
    let mut c: Vec<u64> = Vec::new();
    let mut i: usize = 0;
    while i < r.len()
        invariant
            0 <= i <= r@.len(),
            c@ =~= r@.take(i as int),
        decreases r@.len() - i,
    {
        c.push(r[i]);
        i = i + 1;
    }
    proof {
        assert(c@ =~= r@);
    }
    c
}

/// The three persisted fields assemble into a well-formed model.
pub open spec fn parts_valid(elements: Vec<Vec<u8>>, cm_dist: Vec<Vec<u64>>, pre_index: usize) -> bool {
    (MarkovModel { elements, cm_dist, pre_index }).wf()
}

impl MarkovModel {
    /// The domain: the distinct training tokens in ascending order.
    pub open spec fn dom(self) -> Seq<Seq<u8>> {
        self.elements.deep_view()
    }

    /// The domain size.
    pub open spec fn n(self) -> int {
        self.elements@.len() as int
    }

    /// Row `i` of the cumulative transition table.
    pub open spec fn row(self, i: int) -> Seq<u64> {
        self.cm_dist@[i]@
    }

    /// The cursor: a row index, or the domain size as the fresh-start
    /// sentinel.
    pub open spec fn cursor(self) -> int {
        self.pre_index as int
    }

    /// The cursor is at the sentinel: the next sample starts fresh.
    pub open spec fn is_fresh(self) -> bool {
        self.cursor() == self.n()
    }

    /// Row `i` has at least one observed outgoing transition.
    pub open spec fn live(self, i: int) -> bool {
        self.row(i)[self.n() - 1] > 0
    }

    /// Well-formedness: a non-empty sorted domain of distinct tokens, a
    /// square table with non-decreasing rows, and a cursor within bounds.
    pub open spec fn wf(self) -> bool {
        &&& 1 <= self.n()
        &&& sorted_distinct(self.dom())
        &&& self.cm_dist@.len() == self.n()
        &&& forall|i: int| 0 <= i < self.n() ==> (#[trigger] self.row(i)).len() == self.n()
        &&& forall|i: int, j: int|
            0 <= i < self.n() && 1 <= j < self.n() ==> self.row(i)[j - 1] <= #[trigger] self.row(
                i,
            )[j]
        &&& self.cursor() <= self.n()
    }

    /// The number of live rows among rows `start..n`.
    pub open spec fn live_count_from(self, start: int) -> nat
        decreases self.n() - start,
    {
        if start < 0 || start >= self.n() {
            0
        } else {
            (if self.live(start) {
                1nat
            } else {
                0nat
            }) + self.live_count_from(start + 1)
        }
    }

    /// The number of live rows.
    pub open spec fn live_count(self) -> nat {
        self.live_count_from(0)
    }

    /// The row of the `k`-th live row at or after `start`.
    pub open spec fn kth_live_from(self, k: int, start: int) -> int
        decreases self.n() - start,
    {
        if start < 0 || start >= self.n() {
            self.n()
        } else if self.live(start) {
            if k == 0 {
                start
            } else {
                self.kth_live_from(k - 1, start + 1)
            }
        } else {
            self.kth_live_from(k, start + 1)
        }
    }

    /// The row of the `k`-th live row.
    pub open spec fn kth_live(self, k: int) -> int {
        self.kth_live_from(k, 0)
    }

    /// Every rank below the live count names a live row at or after `start`.
    pub proof fn lemma_kth_live_from(self, k: int, start: int)
        requires
            0 <= start <= self.n(),
            0 <= k < self.live_count_from(start),
        ensures
            start <= self.kth_live_from(k, start) < self.n(),
            self.live(self.kth_live_from(k, start)),
        decreases self.n() - start,
    {
        if start < self.n() {
            if self.live(start) {
                if k > 0 {
                    self.lemma_kth_live_from(k - 1, start + 1);
                }
            } else {
                self.lemma_kth_live_from(k, start + 1);
            }
        }
    }

    /// Distinct ranks name distinct live rows: higher rank, higher row.
    pub proof fn lemma_kth_live_increasing(self, k1: int, k2: int, start: int)
        requires
            0 <= start <= self.n(),
            0 <= k1 < k2 < self.live_count_from(start),
        ensures
            self.kth_live_from(k1, start) < self.kth_live_from(k2, start),
        decreases self.n() - start,
    {
        if start < self.n() {
            if self.live(start) {
                if k1 == 0 {
                    self.lemma_kth_live_from(k2 - 1, start + 1);
                } else {
                    self.lemma_kth_live_increasing(k1 - 1, k2 - 1, start + 1);
                }
            } else {
                self.lemma_kth_live_increasing(k1, k2, start + 1);
            }
        }
    }

    /// Every live row at or after `start` is named by some rank.
    pub proof fn lemma_live_has_rank(self, i: int, start: int)
        requires
            0 <= start <= i < self.n(),
            self.live(i),
        ensures
            exists|k: int|
                0 <= k < self.live_count_from(start) && #[trigger] self.kth_live_from(k, start)
                    == i,
        decreases i - start,
    {
        if start == i {
            assert(self.kth_live_from(0, start) == i);
        } else {
            self.lemma_live_has_rank(i, start + 1);
            let k = choose|k: int|
                0 <= k < self.live_count_from(start + 1) && #[trigger] self.kth_live_from(
                    k,
                    start + 1,
                ) == i;
            if self.live(start) {
                assert(self.kth_live_from(k + 1, start) == i);
            } else {
                assert(self.kth_live_from(k, start) == i);
            }
        }
    }

    /// Builds a model from a training sequence.
    ///
    /// The domain becomes the distinct tokens of the sequence in ascending
    /// order; row `i` of the table holds, per column `j`, the number of
    /// consecutive training pairs leading from domain token `i` to a token at
    /// or below `j`; the cursor starts at the sentinel. An empty sequence is
    /// rejected with `InvalidModel`.
    pub fn from(tokens: Vec<Vec<u8>>) -> (r: Result<MarkovModel, MarkovError>)
        ensures
            tokens@.len() == 0 ==> r == Err::<MarkovModel, MarkovError>(MarkovError::InvalidModel),
            tokens@.len() >= 1 ==> (r matches Ok(m) && ({
                let toks = tokens.deep_view();
                let inds = index_seq(m.dom(), toks);
                &&& m.wf()
                &&& (forall|x: Seq<u8>| m.dom().contains(x) <==> toks.contains(x))
                &&& (forall|i: int, j: int|
                    0 <= i < m.n() && 0 <= j < m.n() ==> #[trigger] m.row(i)[j] == cum_trans_count(
                        inds,
                        i,
                        j,
                    ))
                &&& m.is_fresh()
            })),
    {
        if tokens.len() == 0 {
            return Err(MarkovError::InvalidModel);
        }
        let ghost toks = tokens.deep_view();
        let elements = build_domain(&tokens);
        let n = elements.len();
        let ghost domv = elements.deep_view();
        proof {
            assert(toks.contains(toks[0]));
            assert(domv.contains(toks[0]));
            assert(n >= 1);
        }
        let ghost inds = index_seq(domv, toks);
        proof {
            assert(inds.len() == toks.len());
            assert(inds.len() <= u64::MAX);
            assert forall|w: int| 0 <= w < toks.len() implies 0 <= #[trigger] inds[w] < n by {
                assert(toks.contains(toks[w]));
                assert(domv.contains(toks[w]));
                lemma_first_index(domv, toks[w]);
            }
        }
        // Count the observed transitions.
        let mut freq = zero_matrix(n);
        let mut prev: usize = n;
        let mut k: usize = 0;
        while k < tokens.len()
            invariant
                0 <= k <= toks.len(),
                toks == tokens.deep_view(),
                toks.len() == tokens@.len(),
                domv == elements.deep_view(),
                elements@.len() == n,
                domv.len() >= 1,
                inds == index_seq(domv, toks),
                forall|w: int| 0 <= w < toks.len() ==> 0 <= #[trigger] inds[w] < n,
                forall|x: Seq<u8>| domv.contains(x) <==> toks.contains(x),
                freq@.len() == n,
                forall|s: int| 0 <= s < n ==> (#[trigger] freq@[s])@.len() == n,
                k == 0 ==> prev == n,
                k >= 1 ==> prev as int == inds[k - 1],
                forall|s: int, d: int|
                    0 <= s < n && 0 <= d < n ==> freq@[s]@[d] == trans_count(
                        inds.take(k as int),
                        s,
                        d,
                    ),
            decreases toks.len() - k,
        {
            proof {
                lemma_token_deep_view(tokens@[k as int]);
                assert(toks[k as int] == tokens@[k as int]@);
                assert(toks.contains(toks[k as int]));
                assert(domv.contains(toks[k as int]));
            }
            let cur = find_index(&elements, &tokens[k]);
            let ghost old_freq = freq@;
            if prev != n {
                proof {
                    lemma_trans_bound(inds.take(k as int), prev as int, cur as int);
                    assert(inds.take(k as int).len() == k);
                }
                bump(&mut freq, prev, cur);
            }
            proof {
                assert(cur as int == inds[k as int]);
                assert(inds.take(k as int + 1) =~= inds.take(k as int).push(inds[k as int]));
                if k >= 1 {
                    assert(inds.take(k as int).last() == inds[k - 1]);
                }
                assert forall|s: int, d: int| 0 <= s < n && 0 <= d < n implies freq@[s]@[d]
                    == trans_count(inds.take(k as int + 1), s, d) by {
                    lemma_trans_count_push(inds.take(k as int), inds[k as int], s, d);
                    if k >= 1 && s == prev as int && d == cur as int {
                        assert(freq@[s]@ == old_freq[s]@.update(d, (old_freq[s]@[d] + 1) as u64));
                    } else if prev != n {
                        if s != prev as int {
                            assert(freq@[s] == old_freq[s]);
                        } else {
                            assert(freq@[s]@ == old_freq[s]@.update(
                                cur as int,
                                (old_freq[s]@[cur as int] + 1) as u64,
                            ));
                            assert(freq@[s]@[d] == old_freq[s]@[d]);
                        }
                    }
                }
            }
            prev = cur;
            k = k + 1;
        }
        proof {
            assert(inds.take(toks.len() as int) =~= inds);
        }
        // Turn each row into its running (cumulative) form.
        let mut cm: Vec<Vec<u64>> = Vec::new();
        let mut i: usize = 0;
        while i < n
            invariant
                0 <= i <= n,
                cm@.len() == i,
                freq@.len() == n,
                forall|s: int| 0 <= s < n ==> (#[trigger] freq@[s])@.len() == n,
                forall|s: int, d: int|
                    0 <= s < n && 0 <= d < n ==> freq@[s]@[d] == trans_count(inds, s, d),
                inds.len() <= u64::MAX,
                forall|w: int| 0 <= w < inds.len() ==> 0 <= #[trigger] inds[w],
                forall|s: int| 0 <= s < i ==> (#[trigger] cm@[s])@.len() == n,
                forall|s: int, d: int|
                    0 <= s < i && 0 <= d < n ==> cm@[s]@[d] == cum_trans_count(inds, s, d),
            decreases n - i,
        {
            let mut row: Vec<u64> = Vec::new();
            let mut acc: u64 = 0;
            let mut j: usize = 0;
            proof {
                lemma_cum_below_zero(inds, i as int, -1);
            }
            while j < n
                invariant
                    0 <= j <= n,
                    i < n,
                    row@.len() == j,
                    freq@.len() == n,
                    forall|s: int| 0 <= s < n ==> (#[trigger] freq@[s])@.len() == n,
                    forall|s: int, d: int|
                        0 <= s < n && 0 <= d < n ==> freq@[s]@[d] == trans_count(inds, s, d),
                    inds.len() <= u64::MAX,
                    acc == cum_trans_count(inds, i as int, j - 1),
                    forall|d: int| 0 <= d < j ==> row@[d] == cum_trans_count(inds, i as int, d),
                decreases n - j,
            {
                let f = freq[i][j];
                proof {
                    lemma_cum_step(inds, i as int, j as int);
                    lemma_cum_bound(inds, i as int, j as int);
                }
                acc = acc + f;
                row.push(acc);
                j = j + 1;
            }
            cm.push(row);
            i = i + 1;
        }
        let m = MarkovModel::new(elements, cm, n);
        proof {
            assert(m.dom() == domv);
            assert(m.n() == n);
            assert(index_seq(m.dom(), toks) == inds);
            assert(forall|i2: int| 0 <= i2 < n ==> #[trigger] m.row(i2) == cm@[i2]@);
            assert forall|i2: int, j2: int| 0 <= i2 < n && 1 <= j2 < n implies m.row(i2)[j2 - 1]
                <= #[trigger] m.row(i2)[j2] by {
                lemma_cum_step(inds, i2, j2);
            }
        }
        Ok(m)
    }

    /// One sampling step from `pre` to `post`: the source row is the cursor
    /// when it is anchored on a live row, and otherwise the live row of some
    /// rank below the live count (a fresh start is drawn over the live rows
    /// and over nothing else); the draw `d` lies below the row's total, and
    /// the cursor moves to the column `d` selects in the cumulative row.
    pub open spec fn step_ok(pre: MarkovModel, post: MarkovModel, row: int, d: u64) -> bool {
        &&& (if pre.cursor() < pre.n() && pre.live(pre.cursor()) {
            row == pre.cursor()
        } else {
            exists|kk: int| 0 <= kk < pre.live_count() && row == #[trigger] pre.kth_live(kk)
        })
        &&& 0 <= row < pre.n()
        &&& pre.live(row)
        &&& d < pre.row(row)[pre.n() - 1]
        &&& is_selected(pre.row(row), d, post.cursor())
    }

    /// Emits the next token of the chain and anchors the cursor on it.
    ///
    /// An anchored cursor on a live row continues the chain from that row;
    /// otherwise a fresh starting row is drawn uniformly among the live rows.
    /// The destination column is the inverse-distribution selection for a
    /// uniform draw below the row total. When the model has no live row at
    /// all, there is nowhere to draw from: the cursor returns to the sentinel
    /// and sampling reports `NoValidTransition`.
    pub fn next(&mut self, rng: &mut rand::rngs::StdRng) -> (r: Result<Vec<u8>, MarkovError>)
        requires
            old(self).wf(),
        ensures
            final(self).wf(),
            final(self).elements == old(self).elements,
            final(self).cm_dist == old(self).cm_dist,
            (r is Err) <==> old(self).live_count() == 0,
            r is Err ==> r == Err::<Vec<u8>, MarkovError>(MarkovError::NoValidTransition)
                && final(self).is_fresh(),
            r matches Ok(t) ==> 0 <= final(self).cursor() < old(self).n() && t@ == old(
                self,
            ).dom()[final(self).cursor()],
            r is Ok ==> exists|row: int, d: u64|
                #[trigger] MarkovModel::step_ok(*old(self), *final(self), row, d),
    {
        let n = self.elements.len();
        let mut chosen: usize = n;
        if self.pre_index < n {
            proof {
                assert(self.row(self.pre_index as int).len() == self.n());
            }
            if self.cm_dist[self.pre_index][n - 1] > 0 {
                chosen = self.pre_index;
            }
        }
        let ghost fresh_start = (chosen == n);
        let ghost picked_rank: int = 0;
        if chosen == n {
            let live_total = self.count_live();
            if live_total == 0 {
                self.pre_index = n;
                proof {
                    assert(forall|i2: int|
                        0 <= i2 < self.n() ==> #[trigger] self.row(i2) == old(self).row(i2));
                    assert(self.dom() == old(self).dom());
                }
                return Err(MarkovError::NoValidTransition);
            }
            let kd = rng_below(rng, live_total as u64);
            let kk = kd as usize;
            chosen = self.pick_live(kk);
            proof {
                picked_rank = kk as int;
            }
        } else {
            proof {
                self.lemma_live_has_rank(self.pre_index as int, 0);
            }
        }
        proof {
            assert(self.row(chosen as int).len() == self.n());
        }
        let total = self.cm_dist[chosen][n - 1];
        let d = rng_below(rng, total);
        let j = select_index(&self.cm_dist[chosen], d);
        self.pre_index = j;
        let t = clone_token(&self.elements[j]);
        proof {
            assert(forall|i2: int|
                0 <= i2 < self.n() ==> #[trigger] self.row(i2) == old(self).row(i2));
            assert(self.dom() == old(self).dom());
            lemma_token_deep_view(self.elements@[j as int]);
            if fresh_start {
                assert(0 <= picked_rank < old(self).live_count() && chosen as int == old(
                    self,
                ).kth_live(picked_rank));
            }
            assert(MarkovModel::step_ok(*old(self), *self, chosen as int, d));
            assert(exists|row: int, dd: u64|
                #[trigger] MarkovModel::step_ok(*old(self), *self, row, dd));
        }
        Ok(t)
    }

    /// Creates a model from its three fields.
    fn new(elements: Vec<Vec<u8>>, cm_dist: Vec<Vec<u64>>, pre_index: usize) -> (m: MarkovModel)
        ensures
            m.elements == elements,
            m.cm_dist == cm_dist,
            m.pre_index == pre_index,
    {
        MarkovModel { elements, cm_dist, pre_index }
    }

    /// The number of live rows, counted by scanning the table.
    fn count_live(&self) -> (c: usize)
        requires
            self.wf(),
        ensures
            c == self.live_count(),
    {
        let n = self.elements.len();
        let mut c: usize = 0;
        let mut i: usize = 0;
        while i < n
            invariant
                self.wf(),
                n == self.n(),
                0 <= i <= n,
                c <= i,
                c + self.live_count_from(i as int) == self.live_count(),
            decreases n - i,
        {
            proof {
                assert(self.row(i as int).len() == self.n());
            }
            if self.cm_dist[i][n - 1] > 0 {
                c = c + 1;
            }
            i = i + 1;
        }
        c
    }

    /// The row of the `k`-th live row, found by scanning the table.
    fn pick_live(&self, k: usize) -> (i: usize)
        requires
            self.wf(),
            (k as nat) < self.live_count(),
        ensures
            i as int == self.kth_live(k as int),
            i < self.n(),
            self.live(i as int),
    {
        let n = self.elements.len();
        let mut kk: usize = k;
        let mut i: usize = 0;
        while i < n
            invariant
                self.wf(),
                n == self.n(),
                0 <= i <= n,
                kk <= k,
                (kk as nat) < self.live_count_from(i as int),
                self.kth_live_from(kk as int, i as int) == self.kth_live(k as int),
            decreases n - i,
        {
            proof {
                assert(self.row(i as int).len() == self.n());
            }
            if self.cm_dist[i][n - 1] > 0 {
                if kk == 0 {
                    return i;
                }
                kk = kk - 1;
            }
            i = i + 1;
        }
        proof {
            assert(false);
        }
        0
    }

    /// Hands out the model's three fields — domain, cumulative table,
    /// cursor — as plain values, the persisted form of the model.
    pub fn to_parts(&self) -> (r: (Vec<Vec<u8>>, Vec<Vec<u64>>, usize))
        ensures
            r.0.deep_view() == self.dom(),
            r.1@.len() == self.cm_dist@.len(),
            forall|i: int| 0 <= i < self.cm_dist@.len() ==> (#[trigger] r.1@[i])@ == self.row(i),
            r.2 == self.pre_index,
    {
        let mut elems: Vec<Vec<u8>> = Vec::new();
        let mut i: usize = 0;
        while i < self.elements.len()
            invariant
                0 <= i <= self.elements@.len(),
                elems@.len() == i,
                forall|k: int| 0 <= k < i ==> (#[trigger] elems.deep_view()[k]) == self.dom()[k],
            decreases self.elements@.len() - i,
        {
            proof {
                lemma_token_deep_view(self.elements@[i as int]);
            }
            let ghost before = elems@;
            let ghost before_dv = elems.deep_view();
            let tc = clone_token(&self.elements[i]);
            elems.push(tc);
            proof {
                assert forall|k: int| 0 <= k < i + 1 implies (#[trigger] elems.deep_view()[k])
                    == self.dom()[k] by {
                    if k < i {
                        assert(before_dv[k] == self.dom()[k]);
                        assert(before_dv[k] == before[k].deep_view());
                        assert(elems@[k] == before[k]);
                        assert(elems.deep_view()[k] == elems@[k].deep_view());
                    } else {
                        assert(elems@[k] == tc);
                    }
                }
            }
            i = i + 1;
        }
        proof {
            assert(elems.deep_view() =~= self.dom());
        }
        let mut table: Vec<Vec<u64>> = Vec::new();
        let mut i: usize = 0;
        while i < self.cm_dist.len()
            invariant
                0 <= i <= self.cm_dist@.len(),
                table@.len() == i,
                forall|k: int| 0 <= k < i ==> (#[trigger] table@[k])@ == self.row(k),
            decreases self.cm_dist@.len() - i,
        {
            table.push(clone_row(&self.cm_dist[i]));
            i = i + 1;
        }
        (elems, table, self.pre_index)
    }

    /// Restores a model from its persisted parts, validating every model
    /// invariant: a corrupted or hand-altered record is rejected with
    /// `InvalidModel` instead of yielding a model that later misbehaves.
    pub fn from_parts(elements: Vec<Vec<u8>>, cm_dist: Vec<Vec<u64>>, pre_index: usize) -> (r:
        Result<MarkovModel, MarkovError>)
        ensures
            parts_valid(elements, cm_dist, pre_index) <==> r is Ok,
            r matches Ok(m) ==> m.elements == elements && m.cm_dist == cm_dist && m.pre_index
                == pre_index && m.wf(),
            !parts_valid(elements, cm_dist, pre_index) ==> r == Err::<MarkovModel, MarkovError>(
                MarkovError::InvalidModel,
            ),
    {
        let ghost dv = elements.deep_view();
        let n = elements.len();
        if n == 0 {
            return Err(MarkovError::InvalidModel);
        }
        let mut i: usize = 1;
        while i < n
            invariant
                1 <= i <= n,
                n == elements@.len(),
                dv == elements.deep_view(),
                dv.len() == n,
                forall|w: int| 0 <= w < i - 1 ==> lex_le(#[trigger] dv[w], dv[w + 1]) && dv[w]
                    != dv[w + 1],
            decreases n - i,
        {
            proof {
                lemma_token_deep_view(elements@[i - 1]);
                lemma_token_deep_view(elements@[i as int]);
            }
            if !token_le(&elements[i - 1], &elements[i]) {
                proof {
                    let pr = (MarkovModel { elements, cm_dist, pre_index });
                    assert(pr.dom() == dv);
                    if sorted_distinct(dv) {
                        assert(lex_le(dv[i - 1], dv[i as int]));
                    }
                    assert(!pr.wf());
                }
                return Err(MarkovError::InvalidModel);
            }
            if crate::order::token_eq(&elements[i - 1], &elements[i]) {
                proof {
                    let pr = (MarkovModel { elements, cm_dist, pre_index });
                    assert(pr.dom() == dv);
                    if sorted_distinct(dv) {
                        assert(dv[i - 1] != dv[i as int]);
                    }
                    assert(!pr.wf());
                }
                return Err(MarkovError::InvalidModel);
            }
            i = i + 1;
        }
        proof {
            crate::order::lemma_adjacent_implies_sorted(dv);
        }
        if cm_dist.len() != n {
            return Err(MarkovError::InvalidModel);
        }
        let mut i: usize = 0;
        while i < n
            invariant
                0 <= i <= n,
                n == elements@.len(),
                n == cm_dist@.len(),
                forall|s: int| 0 <= s < i ==> (#[trigger] cm_dist@[s])@.len() == n,
                forall|s: int, j: int|
                    0 <= s < i && 1 <= j < n ==> cm_dist@[s]@[j - 1] <= #[trigger] cm_dist@[s]@[j],
            decreases n - i,
        {
            if cm_dist[i].len() != n {
                proof {
                    let pr = (MarkovModel { elements, cm_dist, pre_index });
                    assert(pr.row(i as int).len() != n);
                    assert(pr.n() == n);
                    assert(!pr.wf());
                }
                return Err(MarkovError::InvalidModel);
            }
            let mut j: usize = 1;
            while j < n
                invariant
                    1 <= j <= n,
                    i < n,
                    n == elements@.len(),
                    n == cm_dist@.len(),
                    cm_dist@[i as int]@.len() == n,
                    forall|w: int|
                        1 <= w < j ==> cm_dist@[i as int]@[w - 1] <= #[trigger] cm_dist@[i as
                            int]@[w],
                decreases n - j,
            {
                if cm_dist[i][j - 1] > cm_dist[i][j] {
                    proof {
                        let pr = (MarkovModel { elements, cm_dist, pre_index });
                        assert(pr.row(i as int)[j - 1] > pr.row(i as int)[j as int]);
                        assert(pr.n() == n);
                        assert(!pr.wf());
                    }
                    return Err(MarkovError::InvalidModel);
                }
                j = j + 1;
            }
            i = i + 1;
        }
        if pre_index > n {
            return Err(MarkovError::InvalidModel);
        }
        let m = MarkovModel::new(elements, cm_dist, pre_index);
        proof {
            assert(m.dom() == dv);
            assert(forall|s: int| 0 <= s < n ==> #[trigger] m.row(s) == cm_dist@[s]@);
        }
        Ok(m)
    }

    /// Forgets the last emitted token: the cursor returns to the sentinel, so
    /// the next sample starts a fresh chain. Nothing else changes.
    pub fn initialize(&mut self)
        ensures
            final(self).elements == old(self).elements,
            final(self).cm_dist == old(self).cm_dist,
            final(self).is_fresh(),
            old(self).wf() ==> final(self).wf(),
    {
        self.pre_index = self.elements.len();
        proof {
            assert(forall|i: int|
                0 <= i < self.n() ==> #[trigger] self.row(i) == old(self).row(i));
            assert(self.dom() == old(self).dom());
        }
    }
}

/// Law: the domain is determined by the distinct training tokens alone. Its
/// size is the number of distinct tokens, and any two models whose domains
/// hold the members of the same training material have the very same domain,
/// independently of the order the tokens were seen in.
pub proof fn lemma_domain_determined(m: MarkovModel, toks: Seq<Seq<u8>>)
    requires
        sorted_distinct(m.dom()),
        forall|x: Seq<u8>| m.dom().contains(x) <==> toks.contains(x),
    ensures
        m.dom().len() == toks.to_set().len(),
        forall|m2: MarkovModel|
            sorted_distinct(#[trigger] m2.dom()) && (forall|x: Seq<u8>|
                m2.dom().contains(x) <==> toks.contains(x)) ==> m2.dom() == m.dom(),
{
    assert(m.dom().no_duplicates()) by {
        assert forall|i: int, j: int|
            0 <= i < m.dom().len() && 0 <= j < m.dom().len() && i != j implies m.dom()[i]
            != m.dom()[j] by {
            if i < j {
                assert(lex_le(m.dom()[i], m.dom()[j]) && m.dom()[i] != m.dom()[j]);
            } else {
                assert(lex_le(m.dom()[j], m.dom()[i]) && m.dom()[j] != m.dom()[i]);
            }
        }
    }
    m.dom().unique_seq_to_set();
    assert(m.dom().to_set() =~= toks.to_set());
    assert forall|m2: MarkovModel|
        sorted_distinct(#[trigger] m2.dom()) && (forall|x: Seq<u8>|
            m2.dom().contains(x) <==> toks.contains(x)) implies m2.dom() == m.dom() by {
        assert forall|x: Seq<u8>| m2.dom().contains(x) <==> m.dom().contains(x) by {
            assert(m2.dom().contains(x) <==> toks.contains(x));
            assert(m.dom().contains(x) <==> toks.contains(x));
        }
        lemma_sorted_distinct_unique(m2.dom(), m.dom());
    }
}

/// Every row of a well-formed table is non-decreasing from column to column.
pub proof fn lemma_row_monotone(m: MarkovModel, i: int, a: int, b: int)
    requires
        m.wf(),
        0 <= i < m.n(),
        0 <= a <= b < m.n(),
    ensures
        m.row(i)[a] <= m.row(i)[b],
    decreases b - a,
{
    if a < b {
        lemma_row_monotone(m, i, a, b - 1);
    }
}

/// Law: a row's entries never decrease and never exceed the row's final
/// (total) entry, and a dead row — one whose total is zero — is zero in
/// every column.
pub proof fn lemma_row_shape(m: MarkovModel, i: int, j: int)
    requires
        m.wf(),
        0 <= i < m.n(),
        0 <= j < m.n(),
    ensures
        1 <= j ==> m.row(i)[j - 1] <= m.row(i)[j],
        m.row(i)[j] <= m.row(i)[m.n() - 1],
        !m.live(i) ==> m.row(i)[j] == 0,
{
    lemma_row_monotone(m, i, j, m.n() - 1);
}

/// Law: a fresh start ranges exactly over the live rows. Each rank below
/// the live count names a live row, distinct ranks name distinct rows, and
/// every live row is named by exactly one rank — so a draw uniform over the
/// ranks starts the chain uniformly over the live rows, and a dead row is
/// never a fresh start.
pub proof fn lemma_fresh_draw_uniform(m: MarkovModel)
    requires
        m.wf(),
    ensures
        forall|k: int|
            0 <= k < m.live_count() ==> 0 <= #[trigger] m.kth_live(k) < m.n() && m.live(
                m.kth_live(k),
            ),
        forall|k1: int, k2: int|
            0 <= k1 < k2 < m.live_count() ==> #[trigger] m.kth_live(k1) != #[trigger] m.kth_live(
                k2,
            ),
        forall|i: int|
            0 <= i < m.n() && m.live(i) ==> exists|k: int|
                0 <= k < m.live_count() && #[trigger] m.kth_live(k) == i,
{
    assert forall|k: int| 0 <= k < m.live_count() implies 0 <= #[trigger] m.kth_live(k) < m.n()
        && m.live(m.kth_live(k)) by {
        m.lemma_kth_live_from(k, 0);
    }
    assert forall|k1: int, k2: int| 0 <= k1 < k2 < m.live_count() implies #[trigger] m.kth_live(
        k1,
    ) != #[trigger] m.kth_live(k2) by {
        m.lemma_kth_live_increasing(k1, k2, 0);
    }
    assert forall|i: int| 0 <= i < m.n() && m.live(i) implies exists|k: int|
        0 <= k < m.live_count() && #[trigger] m.kth_live(k) == i by {
        m.lemma_live_has_rank(i, 0);
        let k = choose|k: int|
            0 <= k < m.live_count_from(0) && #[trigger] m.kth_live_from(k, 0) == i;
        assert(m.kth_live(k) == i);
    }
}

/// Law: persisting a well-formed model and restoring it is the identity.
/// The parts handed out by `to_parts` always pass `from_parts` validation,
/// and the restored model carries the very same domain, table and cursor.
pub proof fn lemma_round_trip(m: MarkovModel)
    requires
        m.wf(),
    ensures
        parts_valid(m.elements, m.cm_dist, m.pre_index),
        (MarkovModel { elements: m.elements, cm_dist: m.cm_dist, pre_index: m.pre_index }) == m,
{
}

} // verus!

