//! The mathematical model of the solver: sums and counts over sequences,
//! selection masks over the piece catalog, and the lemmas that relate a mask
//! over the whole catalog to its restriction to the usable positions.

use vstd::prelude::*;
use vstd::multiset::Multiset;

verus! {

/// The catalog is kept in non-decreasing order of length.
pub open spec fn sorted(s: Seq<u64>) -> bool {
    forall|i: int, j: int| 0 <= i <= j < s.len() ==> s[i] <= s[j]
}

/// Positions in a usable list are strictly increasing.
pub open spec fn strictly_inc(u: Seq<usize>) -> bool {
    forall|i: int, j: int| 0 <= i < j < u.len() ==> u[i] < u[j]
}

/// Sum of all lengths in a sequence.
pub open spec fn sum_seq(s: Seq<u64>) -> int
    decreases s.len(),
{
    if s.len() == 0 {
        0
    } else {
        sum_seq(s.drop_last()) + s.last()
    }
}

/// Number of `true` bits in a mask.
pub open spec fn count_true(b: Seq<bool>) -> int
    decreases b.len(),
{
    if b.len() == 0 {
        0
    } else {
        count_true(b.drop_last()) + if b.last() { 1int } else { 0int }
    }
}

/// Sum of the values whose mask bit is set; the two sequences have equal
/// length wherever this is used.
pub open spec fn sum_sel(v: Seq<u64>, b: Seq<bool>) -> int
    decreases v.len(),
{
    if v.len() == 0 || b.len() == 0 {
        0
    } else {
        sum_sel(v.drop_last(), b.drop_last()) + if b.last() { v.last() as int } else { 0int }
    }
}

/// The values whose mask bit is set, in their original order.
pub open spec fn mask_filter(v: Seq<u64>, b: Seq<bool>) -> Seq<u64>
    decreases v.len(),
{
    if v.len() == 0 || b.len() == 0 {
        Seq::empty()
    } else {
        let rest = mask_filter(v.drop_last(), b.drop_last());
        if b.last() {
            rest.push(v.last())
        } else {
            rest
        }
    }
}

/// A full-catalog mask restricted to the usable positions.
pub open spec fn sel_of(b: Seq<bool>, u: Seq<usize>) -> Seq<bool> {
    Seq::new(u.len(), |i: int| b[u[i] as int])
}

/// The catalog values at the usable positions.
pub open spec fn vals_of(p: Seq<u64>, u: Seq<usize>) -> Seq<u64> {
    Seq::new(u.len(), |i: int| p[u[i] as int])
}

/// How many values of `s` are strictly below `x`.
pub open spec fn count_lt(s: Seq<u64>, x: u64) -> int {
    count_true(Seq::new(s.len(), |i: int| s[i] < x))
}

/// How many values of `s` are at most `x`.
pub open spec fn count_le(s: Seq<u64>, x: u64) -> int {
    count_true(Seq::new(s.len(), |i: int| s[i] <= x))
}

/// The canonical selection of `k` values out of the sorted sequence `s`: all
/// values below the `k`-th smallest, and then the rightmost positions of the
/// run of values equal to it, so that a run of equal values is always taken
/// from its right end.  Starting every enumeration from this shape is what
/// keeps runs of equal values from producing the same selection twice.
pub open spec fn canonical_sel(s: Seq<u64>, k: int) -> Seq<bool> {
    let v = s[k - 1];
    let lt = count_lt(s, v);
    let le = count_le(s, v);
    Seq::new(s.len(), |i: int| s[i] < v || (s[i] == v && i >= le - (k - lt)))
}

/// A selection over `len` positions shaped as two stretches: everything
/// below `f`, and the positions from `m` through `l`.
pub open spec fn shape_sel(len: nat, f: int, m: int, l: int) -> Seq<bool> {
    Seq::new(len, |i: int| i < f || (m <= i <= l))
}

/// On a sorted sequence, the canonical selection of `k` values is determined
/// by the run `[f, l]` of values equal to the `k`-th smallest: everything
/// left of the run, plus the rightmost `k - f` positions of the run; and it
/// selects exactly `k` positions.
pub proof fn lemma_canonical_shape(uv: Seq<u64>, k: int, f: int, l: int)
    requires
        sorted(uv),
        1 <= k <= uv.len(),
        0 <= f <= k - 1 <= l < uv.len(),
        forall|t: int| f <= t <= l ==> #[trigger] uv[t] == uv[k - 1],
        f == 0 || uv[f - 1] != uv[k - 1],
        l == uv.len() - 1 || uv[l + 1] != uv[k - 1],
    ensures
        canonical_sel(uv, k) == shape_sel(uv.len(), f, l - (k - 1 - f), l),
        count_true(canonical_sel(uv, k)) == k,
{
    let v = uv[k - 1];
    let ulen = uv.len() as int;
    assert forall|i: int| 0 <= i < ulen implies (uv[i] < v <==> i < f) by {
        if i < f {
            assert(uv[i] <= uv[f - 1]);
            assert(uv[f] == v);
        } else {
            assert(uv[f] == v);
            assert(uv[f] <= uv[i]);
        }
    }
    assert forall|i: int| 0 <= i < ulen implies (uv[i] <= v <==> i <= l) by {
        if i > l {
            assert(uv[l + 1] != v);
            assert(uv[l] == v);
            assert(uv[l] <= uv[l + 1]);
        }
    }
    lemma_count_prefix(Seq::new(uv.len(), |i: int| uv[i] < v), f);
    lemma_count_prefix(Seq::new(uv.len(), |i: int| uv[i] <= v), l + 1);
    assert(count_lt(uv, v) == f);
    assert(count_le(uv, v) == l + 1);
    let tgt = shape_sel(uv.len(), f, l - (k - 1 - f), l);
    assert(canonical_sel(uv, k) =~= tgt);
    let mid = l - (k - 1 - f);
    let pa = tgt.take(f);
    let pb = tgt.subrange(f, mid);
    let pc = tgt.subrange(mid, l + 1);
    let pd = tgt.subrange(l + 1, ulen);
    assert(tgt =~= pa + pb + pc + pd);
    lemma_count_concat(pa + pb + pc, pd);
    lemma_count_concat(pa + pb, pc);
    lemma_count_concat(pa, pb);
    lemma_count_prefix(pa, pa.len() as int);
    lemma_count_prefix(pb, 0);
    lemma_count_prefix(pc, pc.len() as int);
    lemma_count_prefix(pd, 0);
    assert(count_true(tgt) == k);
}

/// The multiset of all values over a list of bins.
pub open spec fn bins_multiset(bins: Seq<Seq<u64>>) -> Multiset<u64>
    decreases bins.len(),
{
    if bins.len() == 0 {
        Multiset::empty()
    } else {
        bins_multiset(bins.drop_last()).add(bins.last().to_multiset())
    }
}

pub proof fn lemma_sum_seq_take(s: Seq<u64>, i: int)
    requires
        0 <= i <= s.len(),
    ensures
        sum_seq(s.take(i)) <= sum_seq(s),
    decreases s.len(),
{
    if i == s.len() {
        assert(s.take(i) =~= s);
    } else if s.len() > 0 {
        assert(s.drop_last().take(i) =~= s.take(i));
        lemma_sum_seq_take(s.drop_last(), i);
    }
}

pub proof fn lemma_count_true_bounds(b: Seq<bool>)
    ensures
        0 <= count_true(b) <= b.len(),
    decreases b.len(),
{
    if b.len() > 0 {
        lemma_count_true_bounds(b.drop_last());
    }
}

/// A mask whose count equals its length is all `true`.
pub proof fn lemma_count_true_full(b: Seq<bool>)
    requires
        count_true(b) == b.len(),
    ensures
        forall|i: int| 0 <= i < b.len() ==> b[i],
    decreases b.len(),
{
    if b.len() > 0 {
        lemma_count_true_bounds(b.drop_last());
        lemma_count_true_full(b.drop_last());
        assert(forall|i: int| 0 <= i < b.len() - 1 ==> b[i] == b.drop_last()[i]);
    }
}

/// A mask that is `true` exactly below `t` has count `t`.
pub proof fn lemma_count_prefix(b: Seq<bool>, t: int)
    requires
        0 <= t <= b.len(),
        forall|i: int| 0 <= i < b.len() ==> (b[i] <==> i < t),
    ensures
        count_true(b) == t,
    decreases b.len(),
{
    if b.len() > 0 {
        let b2 = b.drop_last();
        assert(forall|i: int| 0 <= i < b2.len() ==> b2[i] == b[i]);
        if b.last() {
            assert(b[b.len() - 1]);
            lemma_count_prefix(b2, t - 1);
        } else {
            lemma_count_prefix(b2, t);
        }
    }
}

pub proof fn lemma_sum_sel_le(v: Seq<u64>, b: Seq<bool>)
    requires
        v.len() == b.len(),
    ensures
        0 <= sum_sel(v, b) <= sum_seq(v),
    decreases v.len(),
{
    if v.len() > 0 {
        lemma_sum_sel_le(v.drop_last(), b.drop_last());
    }
}

/// Changing one mask bit changes the selected sum by that value alone.
pub proof fn lemma_sum_sel_update(v: Seq<u64>, b: Seq<bool>, i: int, nb: bool)
    requires
        v.len() == b.len(),
        0 <= i < b.len(),
    ensures
        sum_sel(v, b.update(i, nb)) == sum_sel(v, b) + (if nb { v[i] as int } else { 0int })
            - (if b[i] { v[i] as int } else { 0int }),
    decreases v.len(),
{
    let bu = b.update(i, nb);
    if i == b.len() - 1 {
        assert(bu.drop_last() =~= b.drop_last());
    } else {
        assert(bu.drop_last() =~= b.drop_last().update(i, nb));
        lemma_sum_sel_update(v.drop_last(), b.drop_last(), i, nb);
    }
}

/// Changing one mask bit changes the count accordingly.
pub proof fn lemma_count_true_update(b: Seq<bool>, i: int, nb: bool)
    requires
        0 <= i < b.len(),
    ensures
        count_true(b.update(i, nb)) == count_true(b) + (if nb { 1int } else { 0int })
            - (if b[i] { 1int } else { 0int }),
    decreases b.len(),
{
    let bu = b.update(i, nb);
    if i == b.len() - 1 {
        assert(bu.drop_last() =~= b.drop_last());
    } else {
        assert(bu.drop_last() =~= b.drop_last().update(i, nb));
        lemma_count_true_update(b.drop_last(), i, nb);
    }
}

/// Filtering keeps exactly as many values as the mask has `true` bits,
/// and the selected sum is the sum of the filtered values.
pub proof fn lemma_mask_filter_basics(v: Seq<u64>, b: Seq<bool>)
    requires
        v.len() == b.len(),
    ensures
        mask_filter(v, b).len() == count_true(b),
        sum_seq(mask_filter(v, b)) == sum_sel(v, b),
    decreases v.len(),
{
    if v.len() > 0 {
        lemma_mask_filter_basics(v.drop_last(), b.drop_last());
        if b.last() {
            let rest = mask_filter(v.drop_last(), b.drop_last());
            assert(rest.push(v.last()).drop_last() =~= rest);
        }
    }
}

/// Every filtered value occurs in the original sequence.
pub proof fn lemma_mask_filter_member(v: Seq<u64>, b: Seq<bool>, t: int)
    requires
        v.len() == b.len(),
        0 <= t < mask_filter(v, b).len(),
    ensures
        exists|i: int| 0 <= i < v.len() && b[i] && v[i] == mask_filter(v, b)[t],
    decreases v.len(),
{
    if v.len() > 0 {
        let rest = mask_filter(v.drop_last(), b.drop_last());
        if b.last() && t == rest.len() {
            assert(b[v.len() - 1] && v[v.len() - 1] == mask_filter(v, b)[t]);
        } else {
            lemma_mask_filter_member(v.drop_last(), b.drop_last(), t);
            let i = choose|i: int|
                0 <= i < v.len() - 1 && b.drop_last()[i] && v.drop_last()[i] == rest[t];
            assert(b[i] && v[i] == mask_filter(v, b)[t]);
        }
    }
}

/// Filtering a sorted sequence yields a sorted sequence.
pub proof fn lemma_mask_filter_sorted(v: Seq<u64>, b: Seq<bool>)
    requires
        v.len() == b.len(),
        sorted(v),
    ensures
        sorted(mask_filter(v, b)),
    decreases v.len(),
{
    if v.len() > 0 {
        assert(sorted(v.drop_last())) by {
            assert(forall|i: int| 0 <= i < v.len() - 1 ==> v.drop_last()[i] == v[i]);
        }
        lemma_mask_filter_sorted(v.drop_last(), b.drop_last());
        let f = mask_filter(v, b);
        let rest = mask_filter(v.drop_last(), b.drop_last());
        if b.last() {
            assert forall|i: int, j: int| 0 <= i <= j < f.len() implies f[i] <= f[j] by {
                if j == f.len() - 1 && i < j {
                    lemma_mask_filter_member(v.drop_last(), b.drop_last(), i);
                }
            }
        }
    }
}

/// Filtering with an all-`true` mask returns the sequence itself.
pub proof fn lemma_mask_filter_all(v: Seq<u64>, b: Seq<bool>)
    requires
        v.len() == b.len(),
        forall|i: int| 0 <= i < b.len() ==> b[i],
    ensures
        mask_filter(v, b) == v,
    decreases v.len(),
{
    if v.len() > 0 {
        lemma_mask_filter_all(v.drop_last(), b.drop_last());
        assert(mask_filter(v, b) =~= v);
    } else {
        assert(mask_filter(v, b) =~= v);
    }
}

/// Number of `false` bits in a mask.
pub open spec fn count_false(b: Seq<bool>) -> int {
    b.len() - count_true(b)
}

/// Counting distributes over concatenation.
pub proof fn lemma_count_concat(a: Seq<bool>, b: Seq<bool>)
    ensures
        count_true(a + b) == count_true(a) + count_true(b),
    decreases b.len(),
{
    if b.len() == 0 {
        assert(a + b =~= a);
    } else {
        assert((a + b).drop_last() =~= a + b.drop_last());
        lemma_count_concat(a, b.drop_last());
    }
}

/// Negating a mask swaps its true and false counts.
pub proof fn lemma_count_neg(b: Seq<bool>)
    ensures
        count_true(Seq::new(b.len(), |j: int| !b[j])) == count_false(b),
    decreases b.len(),
{
    if b.len() > 0 {
        let m = Seq::new(b.len(), |j: int| !b[j]);
        assert(m.drop_last() =~= Seq::new((b.len() - 1) as nat, |j: int| !b.drop_last()[j]));
        lemma_count_neg(b.drop_last());
    }
}

/// One step of a prefix sum over a selection.
pub proof fn lemma_sum_sel_take_step(v: Seq<u64>, b: Seq<bool>, i: int)
    requires
        v.len() == b.len(),
        0 <= i < v.len(),
    ensures
        sum_sel(v.take(i + 1), b.take(i + 1)) == sum_sel(v.take(i), b.take(i)) + (if b[i] {
            v[i] as int
        } else {
            0int
        }),
{
    assert(v.take(i + 1).drop_last() =~= v.take(i));
    assert(b.take(i + 1).drop_last() =~= b.take(i));
}

/// One step of a prefix count.
pub proof fn lemma_count_take_step(b: Seq<bool>, i: int)
    requires
        0 <= i < b.len(),
    ensures
        count_true(b.take(i + 1)) == count_true(b.take(i)) + (if b[i] {
            1int
        } else {
            0int
        }),
{
    assert(b.take(i + 1).drop_last() =~= b.take(i));
}

/// The values at strictly increasing positions of a sorted catalog are sorted.
pub proof fn lemma_vals_of_sorted(p: Seq<u64>, u: Seq<usize>)
    requires
        sorted(p),
        strictly_inc(u),
        forall|t: int| 0 <= t < u.len() ==> u[t] < p.len(),
    ensures
        sorted(vals_of(p, u)),
{
    assert forall|i: int, j: int|
        0 <= i <= j < u.len() implies vals_of(p, u)[i] <= vals_of(p, u)[j] by {
        if i < j {
            assert(u[i] < u[j]);
        }
    }
}

/// The values at strictly increasing positions sum to no more than the whole
/// catalog.
pub proof fn lemma_vals_of_sum(p: Seq<u64>, u: Seq<usize>)
    requires
        p.len() <= usize::MAX,
        strictly_inc(u),
        forall|t: int| 0 <= t < u.len() ==> u[t] < p.len(),
    ensures
        0 <= sum_seq(vals_of(p, u)) <= sum_seq(p),
{
    let d = Seq::new(p.len(), |j: int| u.contains(j as usize));
    lemma_compress_filter(p, d, u);
    assert(sel_of(d, u) =~= Seq::new(u.len(), |t: int| true)) by {
        assert forall|t: int| 0 <= t < u.len() implies d[u[t] as int] by {
            assert(u.contains(u[t]));
        }
    }
    lemma_mask_filter_all(vals_of(p, u), sel_of(d, u));
    lemma_mask_filter_basics(p, d);
    lemma_sum_sel_le(p, d);
}

/// Counting a mask that is `false` outside the usable positions can be done
/// on its restriction to them.
pub proof fn lemma_compress_count(d: Seq<bool>, u: Seq<usize>)
    requires
        d.len() <= usize::MAX,
        strictly_inc(u),
        forall|t: int| 0 <= t < u.len() ==> u[t] < d.len(),
        forall|j: int| 0 <= j < d.len() && !u.contains(j as usize) ==> !d[j],
    ensures
        count_true(d) == count_true(sel_of(d, u)),
{
    let p = Seq::new(d.len(), |j: int| 0u64);
    lemma_compress_filter(p, d, u);
    lemma_mask_filter_basics(p, d);
    lemma_mask_filter_basics(vals_of(p, u), sel_of(d, u));
}

/// The views of a list of bins.
pub open spec fn views_of(bins: Seq<Vec<u64>>) -> Seq<Seq<u64>> {
    bins.map_values(|v: Vec<u64>| v@)
}

/// A strictly increasing position list bounded by `n` sits at or above the
/// diagonal, so it has at most `n` entries.
pub proof fn lemma_strictly_inc_len(u: Seq<usize>, n: int)
    requires
        n >= 0,
        strictly_inc(u),
        forall|t: int| 0 <= t < u.len() ==> u[t] < n,
    ensures
        u.len() <= n,
        forall|t: int| 0 <= t < u.len() ==> u[t] >= t,
    decreases u.len(),
{
    if u.len() > 0 {
        let u2 = u.drop_last();
        assert(forall|t: int| 0 <= t < u2.len() ==> u2[t] == u[t]);
        lemma_strictly_inc_len(u2, n);
        assert(u[u.len() - 1] >= u.len() - 1) by {
            if u.len() >= 2 {
                assert(u2[u.len() - 2] >= u.len() - 2);
                assert(u[u.len() - 2] < u[u.len() - 1]);
            }
        }
        assert(u[u.len() - 1] < n);
    }
}

/// For a mask that is `true` everywhere outside the usable positions, the
/// number of `false` bits is the number of unselected usable positions.
pub proof fn lemma_count_false_state(state: Seq<bool>, u: Seq<usize>)
    requires
        state.len() <= usize::MAX,
        strictly_inc(u),
        forall|t: int| 0 <= t < u.len() ==> u[t] < state.len(),
        forall|j: int| 0 <= j < state.len() && !u.contains(j as usize) ==> state[j],
    ensures
        count_false(state) == u.len() - count_true(sel_of(state, u)),
{
    let m = Seq::new(state.len(), |j: int| !state[j]);
    lemma_compress_count(m, u);
    lemma_count_neg(state);
    assert(sel_of(m, u) =~= Seq::new(u.len(), |t: int| !sel_of(state, u)[t]));
    lemma_count_neg(sel_of(state, u));
}

/// The positions assigned to one plank: set in its own mask `b` but not in
/// the mask `a` inherited from the planks before it.
pub open spec fn diff_mask(b: Seq<bool>, a: Seq<bool>) -> Seq<bool> {
    Seq::new(b.len(), |j: int| b[j] && !a[j])
}

/// A mask that is `false` everywhere outside the usable positions filters the
/// same values out of the catalog as its restriction filters out of the
/// usable values.
pub proof fn lemma_compress_filter(p: Seq<u64>, d: Seq<bool>, u: Seq<usize>)
    requires
        p.len() <= usize::MAX,
        d.len() == p.len(),
        strictly_inc(u),
        forall|t: int| 0 <= t < u.len() ==> u[t] < p.len(),
        forall|j: int| 0 <= j < d.len() && !u.contains(j as usize) ==> !d[j],
    ensures
        mask_filter(p, d) == mask_filter(vals_of(p, u), sel_of(d, u)),
    decreases p.len(),
{
    let n = p.len() as int;
    if n == 0 {
        if u.len() > 0 {
            assert(u[0] < p.len());
        }
        assert(vals_of(p, u) =~= Seq::<u64>::empty());
        assert(mask_filter(p, d) =~= mask_filter(vals_of(p, u), sel_of(d, u)));
    } else {
        let p2 = p.drop_last();
        let d2 = d.drop_last();
        assert((n - 1) as usize as int == n - 1);
        if u.len() > 0 && u.last() == (n - 1) as usize {
            let u2 = u.drop_last();
            assert forall|j: int| 0 <= j < n - 1 && !u2.contains(j as usize) implies !d2[j] by {
                if u.contains(j as usize) {
                    let t = choose|t: int| 0 <= t < u.len() && u[t] == j as usize;
                    assert(u[t] as int == j);
                    assert(t < u.len() - 1);
                    assert(u2[t] == j as usize);
                    assert(u2.contains(j as usize));
                }
                assert(d2[j] == d[j]);
            }
            lemma_compress_filter(p2, d2, u2);
            assert(vals_of(p, u).drop_last() =~= vals_of(p2, u2));
            assert(sel_of(d, u).drop_last() =~= sel_of(d2, u2));
            assert(vals_of(p, u).last() == p.last());
            assert(sel_of(d, u).last() == d.last());
        } else {
            assert(!u.contains((n - 1) as usize)) by {
                if u.contains((n - 1) as usize) {
                    let t = choose|t: int| 0 <= t < u.len() && u[t] == (n - 1) as usize;
                    if t < u.len() - 1 {
                        assert(u[t] < u[u.len() - 1]);
                    }
                }
            }
            assert(!d[n - 1]);
            assert(forall|t: int| 0 <= t < u.len() ==> u[t] < n - 1) by {
                if u.len() > 0 {
                    assert(forall|t: int| 0 <= t < u.len() - 1 ==> #[trigger] u[t] < u[u.len() - 1]);
                    assert(u[u.len() - 1] != (n - 1) as usize);
                }
            }
            lemma_compress_filter(p2, d2, u);
            assert(vals_of(p, u) =~= vals_of(p2, u));
            assert(sel_of(d, u) =~= sel_of(d2, u));
        }
    }
}

/// Splitting a mask `b` into a smaller mask `a` and the difference splits the
/// filtered values as a multiset.
pub proof fn lemma_filter_split(p: Seq<u64>, a: Seq<bool>, b: Seq<bool>)
    requires
        a.len() == p.len(),
        b.len() == p.len(),
        forall|j: int| 0 <= j < p.len() && a[j] ==> b[j],
    ensures
        mask_filter(p, b).to_multiset() == mask_filter(p, a).to_multiset().add(
            mask_filter(p, diff_mask(b, a)).to_multiset(),
        ),
    decreases p.len(),
{
    broadcast use vstd::seq_lib::to_multiset_build;
    broadcast use vstd::multiset::group_multiset_axioms;

    broadcast use vstd::seq_lib::group_to_multiset_ensures;

    let n = p.len() as int;
    if n == 0 {
        let e = Seq::<u64>::empty();
        assert(mask_filter(p, b) == e && mask_filter(p, a) == e && mask_filter(
            p,
            diff_mask(b, a),
        ) == e);
        assert forall|x: u64| e.to_multiset().count(x) == 0 by {
            assert(!e.contains(x));
        }
        assert(e.to_multiset().add(e.to_multiset()) =~= e.to_multiset());
    } else {
        let p2 = p.drop_last();
        let a2 = a.drop_last();
        let b2 = b.drop_last();
        let d = diff_mask(b, a);
        let d2 = diff_mask(b2, a2);
        assert(d.drop_last() =~= d2);
        lemma_filter_split(p2, a2, b2);
        let x = p.last();
        let ram = mask_filter(p2, a2).to_multiset();
        let rbm = mask_filter(p2, b2).to_multiset();
        let rdm = mask_filter(p2, d2).to_multiset();
        if b.last() {
            if a.last() {
                assert(!d.last());
                assert(mask_filter(p, b).to_multiset() == rbm.insert(x));
                assert(mask_filter(p, a).to_multiset() == ram.insert(x));
                assert(ram.insert(x).add(rdm) =~= ram.add(rdm).insert(x));
            } else {
                assert(d.last());
                assert(mask_filter(p, b).to_multiset() == rbm.insert(x));
                assert(mask_filter(p, d).to_multiset() == rdm.insert(x));
                assert(ram.add(rdm.insert(x)) =~= ram.add(rdm).insert(x));
            }
        } else {
            assert(!a.last() && !d.last());
        }
    }
}

/// The bins that a monotone chain of masks cuts out of the catalog: bin `i`
/// holds the values that mask `i` has and mask `i - 1` has not.
pub open spec fn chain_bins(p: Seq<u64>, states: Seq<Seq<bool>>) -> Seq<Seq<u64>> {
    Seq::new(
        states.len(),
        |i: int|
            if i == 0 {
                mask_filter(p, states[0])
            } else {
                mask_filter(p, diff_mask(states[i], states[i - 1]))
            },
    )
}

/// Over a monotone chain of masks, the bins' values add up, as a multiset,
/// to exactly the values of the last mask.
pub proof fn lemma_chain_multiset(p: Seq<u64>, states: Seq<Seq<bool>>)
    requires
        states.len() >= 1,
        forall|i: int| 0 <= i < states.len() ==> (#[trigger] states[i]).len() == p.len(),
        forall|i: int, j: int|
            1 <= i < states.len() && 0 <= j < p.len() && #[trigger] states[i - 1][j]
                ==> #[trigger] states[i][j],
    ensures
        bins_multiset(chain_bins(p, states)) == mask_filter(p, states.last()).to_multiset(),
    decreases states.len(),
{
    broadcast use vstd::multiset::group_multiset_axioms;

    let bins = chain_bins(p, states);
    assert(bins_multiset(Seq::<Seq<u64>>::empty()) == Multiset::<u64>::empty());
    if states.len() == 1 {
        assert(bins.drop_last() =~= Seq::<Seq<u64>>::empty());
        assert(bins.last() == mask_filter(p, states[0]));
        assert(Multiset::<u64>::empty().add(mask_filter(p, states[0]).to_multiset())
            =~= mask_filter(p, states[0]).to_multiset());
    } else {
        let st2 = states.drop_last();
        lemma_chain_multiset(p, st2);
        assert(bins.drop_last() =~= chain_bins(p, st2));
        let m = states.len() as int;
        lemma_filter_split(p, states[m - 2], states[m - 1]);
        assert(bins.last() == mask_filter(p, diff_mask(states[m - 1], states[m - 2])));
        assert(st2.last() == states[m - 2]);
    }
}

} // verus!
