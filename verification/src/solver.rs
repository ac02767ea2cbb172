//! The backtracking search over a stack of planks, and the projection of a
//! finished stack to the final per-plank piece lists.
//!
//! The stack is grown one plank at a time; a plank whose current selection
//! fits stays, one that does not is shrunk or advanced, and planks are popped
//! when every pending candidate of the planks above is exhausted.  The number
//! of planks the search is aiming for is raised only when a smaller count has
//! been ruled out.

use vstd::multiset::Multiset;
use vstd::prelude::*;

use crate::model::{
    bins_multiset, chain_bins, count_false, diff_mask, lemma_chain_multiset,
    lemma_compress_filter, lemma_count_false_state, lemma_count_prefix, lemma_count_true_full,
    lemma_mask_filter_all, lemma_mask_filter_basics, lemma_mask_filter_sorted,
    lemma_strictly_inc_len, lemma_sum_seq_take, mask_filter, sorted, sum_seq, views_of,
};
use crate::plank::Plank;

verus! {

/// The inherited mask of plank `q` in a stack over an `n`-piece catalog: the
/// state of the plank below it, or the all-free mask for the first plank.
pub open spec fn prior_state(planks: Seq<Plank>, q: int, n: nat) -> Seq<bool> {
    if q == 0 {
        Seq::new(n, |j: int| false)
    } else {
        planks[q - 1].state_bv@
    }
}

/// A well-formed stack of planks over the catalog `pieces`: every plank
/// well-formed over that catalog, the first plank free to use every
/// position, and each plank's usable positions exactly the ones the plank
/// below has not taken.
pub open spec fn stack_wf(planks: Seq<Plank>, pieces: Seq<u64>) -> bool {
    &&& forall|q: int| 0 <= q < planks.len() ==> (#[trigger] planks[q]).wf()
    &&& forall|q: int| 0 <= q < planks.len() ==> (#[trigger] planks[q]).all_pieces@ == pieces
    &&& planks.len() >= 1 ==> forall|j: int|
        0 <= j < pieces.len() ==> #[trigger] planks[0].usable_pieces@.contains(j as usize)
    &&& forall|q: int, j: int|
        1 <= q < planks.len() && 0 <= j < pieces.len() ==> ((#[trigger] planks[q].usable_pieces@
            .contains(j as usize)) <==> !planks[q - 1].state_bv@[j])
    &&& planks.len() >= 1 ==> planks[0].usable_pieces@.len() == pieces.len()
    &&& forall|q: int|
        1 <= q < planks.len() ==> (#[trigger] planks[q]).usable_pieces@.len() == count_false(
            planks[q - 1].state_bv@,
        )
}

/// Everything the search keeps true of its state between steps: a stack
/// within the planned plank count, well-formed over the catalog, every plank
/// but the top one within the plank length, the pool counter equal to what
/// the top plank's usable positions leave unselected, and a full stack only
/// with an empty pool.
pub open spec fn search_inv(
    planks: Seq<Plank>,
    pieces: Seq<u64>,
    max_p_len: u64,
    rem: int,
    num: int,
) -> bool {
    &&& planks.len() >= 1
    &&& planks.len() <= num
    &&& 1 <= num <= pieces.len()
    &&& stack_wf(planks, pieces)
    &&& forall|q: int| 0 <= q < planks.len() - 1 ==> (#[trigger] planks[q]).total_len <= max_p_len
    &&& rem == planks.last().usable_pieces@.len() - planks.last().num_pieces
    &&& planks.len() == num ==> rem == 0
}

/// An all-false mask over `n` catalog positions.
#[verifier::loop_isolation(false)]
fn empty_mask(n: usize) -> (r: Vec<bool>)
    ensures
        r@.len() == n,
        forall|j: int| 0 <= j < n ==> !r@[j],
{
    let mut r: Vec<bool> = Vec::new();
    let mut i: usize = 0;
    while i < n
        invariant
            i <= n,
            r@.len() == i,
            forall|j: int| 0 <= j < i ==> !r@[j],
        decreases n - i,
    {
        r.push(false);
        i = i + 1;
    }
    r
}

/// The length of the longest prefix of `pieces` whose sum is within
/// `max_len`; lengths are integers, so the comparison is exact.
pub fn initial_num_pieces(max_len: u64, pieces: &Vec<u64>) -> (count: usize)
    requires
        sum_seq(pieces@) <= u64::MAX,
    ensures
        count <= pieces@.len(),
        sum_seq(pieces@.take(count as int)) <= max_len,
        count < pieces@.len() ==> sum_seq(pieces@.take(count as int + 1)) > max_len,
{
    let mut total: u64 = 0;
    let mut count: usize = 0;
    let n = pieces.len();
    while count < n
        invariant
            n == pieces@.len(),
            sum_seq(pieces@) <= u64::MAX,
            count <= n,
            total == sum_seq(pieces@.take(count as int)),
            total <= max_len,
        ensures
            n == pieces@.len(),
            count <= n,
            total == sum_seq(pieces@.take(count as int)),
            total <= max_len,
            count < n ==> sum_seq(pieces@.take(count as int + 1)) > max_len,
        decreases n - count,
    {
        proof {
            assert(pieces@.take(count as int + 1).drop_last() =~= pieces@.take(count as int));
            lemma_sum_seq_take(pieces@, count as int + 1);
        }
        let p = pieces[count];
        if max_len - total >= p {
            total = total + p;
            count = count + 1;
        } else {
            break ;
        }
    }
    count
}

/// Projects a finished stack to one ascending piece list per plank: plank
/// `q` receives the catalog values at the positions its state has and the
/// previous plank's state has not.
#[verifier::loop_isolation(false)]
pub fn planks_to_vecs(planks: Vec<Plank>) -> (r: Vec<Vec<u64>>)
    requires
        planks@.len() >= 1,
        stack_wf(planks@, planks@[0].all_pieces@),
    ensures
        r@.len() == planks@.len(),
        forall|q: int|
            0 <= q < planks@.len() ==> (#[trigger] r@[q])@ == mask_filter(
                planks@[0].all_pieces@,
                diff_mask(
                    planks@[q].state_bv@,
                    prior_state(planks@, q, planks@[0].all_pieces@.len()),
                ),
            ),
{
    let ghost pseq = planks@[0].all_pieces@;
    let n = planks[0].all_pieces.len();
    let mut ret: Vec<Vec<u64>> = Vec::new();
    let mut prev_bv: Vec<bool> = empty_mask(n);
    let mut q: usize = 0;
    while q < planks.len()
        invariant
            q <= planks@.len(),
            ret@.len() == q,
            prev_bv@ == prior_state(planks@, q as int, pseq.len()),
            prev_bv@.len() == n,
            forall|j: int| 0 <= j < n ==> (prev_bv@[j] ==> planks@[q as int].state_bv@[j]) || q
                == planks@.len(),
            forall|t: int|
                0 <= t < q ==> (#[trigger] ret@[t])@ == mask_filter(
                    pseq,
                    diff_mask(planks@[t].state_bv@, prior_state(planks@, t, pseq.len())),
                ),
        decreases planks@.len() - q,
    {
        let p = &planks[q];
        proof {
            assert forall|j: int| 0 <= j < n && prev_bv@[j] implies p.state_bv@[j] by {
                if q > 0 {
                    assert(!p.usable_pieces@.contains(j as usize));
                }
            }
        }
        let ghost dm = diff_mask(p.state_bv@, prev_bv@);
        let mut v: Vec<u64> = Vec::new();
        let mut j: usize = 0;
        while j < n
            invariant
                j <= n,
                v@ == mask_filter(pseq.take(j as int), dm.take(j as int)),
            decreases n - j,
        {
            proof {
                assert(pseq.take(j as int + 1).drop_last() =~= pseq.take(j as int));
                assert(dm.take(j as int + 1).drop_last() =~= dm.take(j as int));
            }
            if p.state_bv[j] != prev_bv[j] {
                proof {
                    assert(dm[j as int]);
                }
                v.push(p.all_pieces[j]);
            }
            j = j + 1;
        }
        proof {
            assert(pseq.take(n as int) =~= pseq);
            assert(dm.take(n as int) =~= dm);
        }
        ret.push(v);
        prev_bv = p.state_bv.clone();
        proof {
            assert forall|t: int| 0 <= t < prev_bv@.len() implies prev_bv@[t]
                == p.state_bv@[t] by {
                assert(vstd::pervasive::cloned::<bool>(p.state_bv@[t], prev_bv@[t]));
            }
            assert(prev_bv@ =~= p.state_bv@);
        }
        q = q + 1;
    }
    ret
}

/// The fallback arrangement: one piece per plank.  It is a valid answer for
/// any catalog the solver admits, and is returned only from states that the
/// search's informal feasibility argument rules out but this library does
/// not prove unreachable.
#[verifier::loop_isolation(false)]
fn singleton_solution(max_p_len: u64, pieces: &Vec<u64>) -> (r: Vec<Vec<u64>>)
    requires
        pieces@.len() >= 1,
        forall|j: int| 0 <= j < pieces@.len() ==> #[trigger] pieces@[j] <= max_p_len,
    ensures
        r@.len() >= 1,
        bins_multiset(views_of(r@)) == pieces@.to_multiset(),
        forall|q: int| 0 <= q < r@.len() ==> sum_seq((#[trigger] r@[q])@) <= max_p_len,
        forall|q: int| 0 <= q < r@.len() ==> sorted((#[trigger] r@[q])@) && r@[q]@.len() == 1,
{
    broadcast use vstd::seq_lib::group_to_multiset_ensures;
    broadcast use vstd::multiset::group_multiset_axioms;

    let n = pieces.len();
    let mut r: Vec<Vec<u64>> = Vec::new();
    let mut i: usize = 0;
    while i < n
        invariant
            i <= n,
            r@.len() == i,
            bins_multiset(views_of(r@)) == pieces@.take(i as int).to_multiset(),
            forall|q: int| 0 <= q < i ==> sum_seq((#[trigger] r@[q])@) <= max_p_len,
            forall|q: int| 0 <= q < i ==> sorted((#[trigger] r@[q])@) && r@[q]@.len() == 1,
        decreases n - i,
    {
        let mut b: Vec<u64> = Vec::new();
        b.push(pieces[i]);
        proof {
            assert(b@.drop_last() =~= Seq::<u64>::empty());
            assert(sum_seq(Seq::<u64>::empty()) == 0);
            assert(sum_seq(b@) == pieces@[i as int]);
            assert(b@.to_multiset() == Multiset::<u64>::empty().insert(pieces@[i as int])) by {
                assert(b@ =~= Seq::<u64>::empty().push(pieces@[i as int]));
            }
        }
        let ghost r0 = r@;
        r.push(b);
        proof {
            assert(views_of(r@).drop_last() =~= views_of(r0));
            assert(views_of(r@).last() == b@);
            assert(pieces@.take(i as int + 1) =~= pieces@.take(i as int).push(pieces@[i as int]));
            assert(pieces@.take(i as int + 1).to_multiset() == pieces@.take(
                i as int,
            ).to_multiset().insert(pieces@[i as int]));
            assert(bins_multiset(views_of(r@)) =~= pieces@.take(i as int + 1).to_multiset());
        }
        i = i + 1;
    }
    proof {
        assert(pieces@.take(n as int) =~= pieces@);
    }
    r
}

/// The arithmetic feasibility test of the search: with `budget` planks
/// planned and `stacked` already kept, can the plank in hand lose one of its
/// `count` pieces without forcing the plan to grow?  The products are taken
/// wide so the test itself cannot overflow.
fn shrink_keeps_plan(budget: usize, stacked: usize, count: usize, rem: usize) -> (r: bool)
    requires
        stacked <= budget,
    ensures
        r == (count >= 2 && (budget - stacked) * (count - 1) >= rem + count),
{
    if count >= 2 {
        let a = (budget - stacked) as u128;
        let b = (count - 1) as u128;
        proof {
            assert(a * b <= 0xFFFF_FFFF_FFFF_FFFFu128 * 0xFFFF_FFFF_FFFF_FFFFu128)
                by (nonlinear_arith)
                requires
                    a <= 0xFFFF_FFFF_FFFF_FFFFu128,
                    b <= 0xFFFF_FFFF_FFFF_FFFFu128,
            ;
        }
        a * b >= (rem as u128) + (count as u128)
    } else {
        false
    }
}

/// Seeds the search: one plank holding the longest catalog prefix whose sum
/// fits the plank length, and a first plank-count plan derived from the
/// ratio of catalog size to that plank's count.
#[verifier::loop_isolation(false)]
fn seed_stack(max_p_len: u64, pieces: &Vec<u64>) -> (r: (Vec<Plank>, usize, usize))
    requires
        pieces@.len() >= 1,
        sorted(pieces@),
        sum_seq(pieces@) <= u64::MAX,
        forall|j: int| 0 <= j < pieces@.len() ==> 0 < #[trigger] pieces@[j] <= max_p_len,
    ensures
        r.0@.len() == 1,
        r.0@.len() <= r.2,
        1 <= r.2 <= pieces@.len(),
        stack_wf(r.0@, pieces@),
        r.1 == r.0@.last().usable_pieces@.len() - r.0@.last().num_pieces,
        r.0@.len() == r.2 ==> r.1 == 0,
{
    let n = pieces.len();
    let zeros = empty_mask(n);
    proof {
        lemma_count_prefix(zeros@, 0);
    }
    let k0 = initial_num_pieces(max_p_len, pieces);
    proof {
        if k0 == 0 {
            assert(pieces@.take(1).drop_last() =~= pieces@.take(0));
            assert(sum_seq(pieces@.take(1)) == pieces@[0]);
            assert(false);
        }
    }
    let mut planks: Vec<Plank> = Vec::new();
    planks.push(Plank::new(k0, &zeros, pieces));
    let rem_pieces = n - k0;
    let num_planks = (n - 1) / (n - rem_pieces) + 1;
    proof {
        broadcast use vstd::arithmetic::div_mod::group_div_basics;

        assert forall|j: int|
            0 <= j < pieces@.len() implies #[trigger] planks@[0].usable_pieces@.contains(
            j as usize,
        ) by {
            assert(!zeros@[j]);
        }
        assert(stack_wf(planks@, pieces@));
        if rem_pieces >= 1 {
            vstd::arithmetic::div_mod::lemma_div_non_zero((n - 1) as int, (n - rem_pieces) as int);
        }
    }
    (planks, rem_pieces, num_planks)
}

/// Removing the top plank keeps a stack well-formed.
proof fn lemma_stack_pop(stack: Seq<Plank>, pieces: Seq<u64>)
    requires
        stack_wf(stack, pieces),
        stack.len() >= 1,
    ensures
        stack_wf(stack.drop_last(), pieces),
{
    let s2 = stack.drop_last();
    assert(forall|q: int| 0 <= q < s2.len() ==> s2[q] == stack[q]);
}

/// Pushing a well-formed plank whose usable positions are exactly what the
/// current top plank's state leaves free (or the whole catalog on an empty
/// stack) keeps a stack well-formed.
proof fn lemma_stack_push_top(stack: Seq<Plank>, p: Plank, pieces: Seq<u64>)
    requires
        stack_wf(stack, pieces),
        p.wf(),
        p.all_pieces@ == pieces,
        stack.len() > 0 ==> forall|j: int|
            0 <= j < pieces.len() ==> ((#[trigger] p.usable_pieces@.contains(j as usize))
                <==> !stack.last().state_bv@[j]),
        stack.len() > 0 ==> p.usable_pieces@.len() == count_false(stack.last().state_bv@),
        stack.len() == 0 ==> forall|j: int|
            0 <= j < pieces.len() ==> #[trigger] p.usable_pieces@.contains(j as usize),
        stack.len() == 0 ==> p.usable_pieces@.len() == pieces.len(),
    ensures
        stack_wf(stack.push(p), pieces),
{
    let s2 = stack.push(p);
    assert(forall|q: int| 0 <= q < stack.len() ==> s2[q] == stack[q]);
    assert(s2.last() == p);
}

/// Replacing the top plank with one over the same usable positions keeps a
/// stack well-formed, and keeps every plank below the top within the length.
proof fn lemma_stack_retop(
    stack: Seq<Plank>,
    p0: Plank,
    p1: Plank,
    pieces: Seq<u64>,
    max_p_len: u64,
)
    requires
        stack_wf(stack.push(p0), pieces),
        forall|q: int|
            0 <= q < stack.push(p0).len() - 1 ==> (#[trigger] stack.push(p0)[q]).total_len
                <= max_p_len,
        p1.wf(),
        p1.all_pieces@ == pieces,
        p1.usable_pieces@ == p0.usable_pieces@,
    ensures
        stack_wf(stack.push(p1), pieces),
        forall|q: int|
            0 <= q < stack.push(p1).len() - 1 ==> (#[trigger] stack.push(p1)[q]).total_len
                <= max_p_len,
{
    let s0 = stack.push(p0);
    let s1 = stack.push(p1);
    assert(forall|q: int| 0 <= q < stack.len() ==> s1[q] == s0[q]);
    assert(s1.last() == p1);
    assert(s0.last() == p0);
}

/// One search step for a plank that fits: keep it, and unless every piece is
/// already placed (which completes the search), open the next plank over the
/// positions it leaves free, sized like it — or sized to take everything
/// left when it is the last plank of the plan.
#[verifier::loop_isolation(false)]
#[verifier::rlimit(100)]
#[verifier::spinoff_prover]
fn step_keep(
    planks: &mut Vec<Plank>,
    curr_plank: Plank,
    rem_pieces: &mut usize,
    num_planks: usize,
    max_p_len: u64,
    pieces: &Vec<u64>,
) -> (done: bool)
    requires
        pieces@.len() >= 1,
        sorted(pieces@),
        sum_seq(pieces@) <= u64::MAX,
        curr_plank.total_len <= max_p_len,
        search_inv(
            old(planks)@.push(curr_plank),
            pieces@,
            max_p_len,
            *old(rem_pieces) as int,
            num_planks as int,
        ),
        old(planks)@.len() + 1 < num_planks || *old(rem_pieces) == 0,
    ensures
        search_inv(
            final(planks)@,
            pieces@,
            max_p_len,
            *final(rem_pieces) as int,
            num_planks as int,
        ),
        done ==> forall|q: int|
            0 <= q < final(planks)@.len() ==> (#[trigger] final(planks)@[q]).total_len
                <= max_p_len,
        done ==> *final(rem_pieces) == 0,
{
    planks.push(curr_plank);
    if *rem_pieces == 0 {
        // nothing is left to place and every kept plank fits
        return true;
    }
    let top1 = planks.len() - 1;
    // reading the length puts the mask's size in range for the counting lemma
    let nb = planks[top1].state_bv.len();
    let prev_count = planks[top1].num_pieces;
    let new_num_pieces = if planks.len() == num_planks - 1 {
        *rem_pieces
    } else {
        if prev_count < *rem_pieces {
            prev_count
        } else {
            *rem_pieces
        }
    };
    proof {
        lemma_count_false_state(
            planks@[top1 as int].state_bv@,
            planks@[top1 as int].usable_pieces@,
        );
    }
    let new_plank = Plank::new(new_num_pieces, &planks[top1].state_bv, pieces);
    planks.push(new_plank);
    let top2 = planks.len() - 1;
    *rem_pieces = *rem_pieces - planks[top2].num_pieces;
    false
}

/// One search step for a plank that no longer fits but may simply lose a
/// piece: the arithmetic feasibility test has said that shrinking it by one
/// cannot force the plank count above the plan, so rebuild it one piece
/// smaller and return that piece to the pool.
#[verifier::loop_isolation(false)]
#[verifier::rlimit(100)]
#[verifier::spinoff_prover]
fn step_shrink(
    planks: &mut Vec<Plank>,
    curr_plank: Plank,
    rem_pieces: &mut usize,
    num_planks: usize,
    max_p_len: u64,
    pieces: &Vec<u64>,
) -> (r: ())
    requires
        pieces@.len() >= 1,
        sorted(pieces@),
        sum_seq(pieces@) <= u64::MAX,
        curr_plank.num_pieces >= 2,
        (num_planks - old(planks)@.len()) * (curr_plank.num_pieces - 1) >= *old(rem_pieces)
            + curr_plank.num_pieces,
        search_inv(
            old(planks)@.push(curr_plank),
            pieces@,
            max_p_len,
            *old(rem_pieces) as int,
            num_planks as int,
        ),
    ensures
        search_inv(
            final(planks)@,
            pieces@,
            max_p_len,
            *final(rem_pieces) as int,
            num_planks as int,
        ),
{
    let ghost p0 = curr_plank;
    let ghost stack0 = planks@;
    let mut curr_plank = curr_plank;
    proof {
        if planks@.len() + 1 == num_planks {
            let bs = num_planks - planks@.len();
            assert(bs * (curr_plank.num_pieces - 1) == curr_plank.num_pieces - 1)
                by (nonlinear_arith)
                requires
                    bs == 1,
            ;
            assert(false);
        }
    }
    let c = curr_plank.num_pieces;
    // reading the length bounds the freed-piece counter below
    let ul = curr_plank.usable_pieces.len();
    curr_plank.set_num_pieces(c - 1);
    proof {
        lemma_stack_retop(stack0, p0, curr_plank, pieces@, max_p_len);
    }
    planks.push(curr_plank);
    *rem_pieces = *rem_pieces + 1;
    proof {
        assert(planks@ == stack0.push(curr_plank));
    }
}

/// One search step when the plank on top must be given up: return its pieces
/// to the pool, advance the nearest plank below that still has a pending
/// candidate, or shrink the bottommost plank by one and raise the planned
/// plank count.  Reports failure only from the state where the bottommost
/// plank is exhausted at a single piece, which the feasibility argument
/// rules out for a terminating search but this library does not prove.
#[verifier::loop_isolation(false)]
#[verifier::rlimit(100)]
#[verifier::spinoff_prover]
fn step_backtrack(
    planks: &mut Vec<Plank>,
    curr_plank: Plank,
    rem_pieces: &mut usize,
    num_planks: &mut usize,
    max_p_len: u64,
    pieces: &Vec<u64>,
) -> (ok: bool)
    requires
        pieces@.len() >= 1,
        sorted(pieces@),
        sum_seq(pieces@) <= u64::MAX,
        forall|j: int| 0 <= j < pieces@.len() ==> 0 < #[trigger] pieces@[j] <= max_p_len,
        search_inv(
            old(planks)@.push(curr_plank),
            pieces@,
            max_p_len,
            *old(rem_pieces) as int,
            *old(num_planks) as int,
        ),
    ensures
        ok ==> search_inv(
            final(planks)@,
            pieces@,
            max_p_len,
            *final(rem_pieces) as int,
            *final(num_planks) as int,
        ),
{
    let ghost p_top = curr_plank;
    let mut curr_plank = curr_plank;
    let n = pieces.len();
    let ghost len0 = planks@.len() + 1;
    proof {
        assert(old(planks)@.push(p_top).drop_last() =~= old(planks)@);
        lemma_stack_pop(old(planks)@.push(p_top), pieces@);
    }
    if planks.len() > 0 {
        // reading the length bounds the freed-piece counter below
        let ul0 = curr_plank.usable_pieces.len();
        *rem_pieces = *rem_pieces + curr_plank.num_pieces;
        let ghost stack1 = planks@;
        curr_plank = planks.pop().unwrap();
        proof {
            assert(planks@ =~= stack1.drop_last());
            lemma_stack_pop(stack1, pieces@);
            lemma_count_false_state(curr_plank.state_bv@, curr_plank.usable_pieces@);
        }
        while !curr_plank.has_next() && planks.len() > 0
            invariant
                planks@.len() <= len0 - 2,
                stack_wf(planks@, pieces@),
                curr_plank.wf(),
                curr_plank.all_pieces@ == pieces@,
                curr_plank.total_len <= max_p_len,
                forall|q: int|
                    0 <= q < planks@.len() ==> (#[trigger] planks@[q]).total_len <= max_p_len,
                planks@.len() > 0 ==> forall|j: int|
                    0 <= j < pieces@.len() ==> ((#[trigger] curr_plank.usable_pieces@.contains(
                        j as usize,
                    )) <==> !planks@.last().state_bv@[j]),
                planks@.len() == 0 ==> forall|j: int|
                    0 <= j < pieces@.len() ==> #[trigger] curr_plank.usable_pieces@.contains(
                        j as usize,
                    ),
                planks@.len() > 0 ==> curr_plank.usable_pieces@.len() == count_false(
                    planks@.last().state_bv@,
                ),
                planks@.len() == 0 ==> curr_plank.usable_pieces@.len() == pieces@.len(),
                *rem_pieces == curr_plank.usable_pieces@.len() - curr_plank.num_pieces,
            decreases planks@.len(),
        {
            // reading the length bounds the freed-piece counter below
            let ul1 = curr_plank.usable_pieces.len();
            *rem_pieces = *rem_pieces + curr_plank.num_pieces;
            let ghost stack2 = planks@;
            curr_plank = planks.pop().unwrap();
            proof {
                assert(planks@ =~= stack2.drop_last());
                lemma_stack_pop(stack2, pieces@);
                lemma_count_false_state(curr_plank.state_bv@, curr_plank.usable_pieces@);
            }
        }
    } else {
        proof {
            assert(old(planks)@.push(p_top)[0] == curr_plank);
        }
    }
    if curr_plank.has_next() && curr_plank.small_enough(max_p_len) {
        let ghost stack3 = planks@;
        curr_plank.next();
        proof {
            lemma_stack_push_top(stack3, curr_plank, pieces@);
        }
        planks.push(curr_plank);
        proof {
            assert(planks@ == stack3.push(curr_plank));
            assert forall|q: int|
                0 <= q < planks@.len() - 1 implies (#[trigger] planks@[q]).total_len
                <= max_p_len by {
                assert(planks@[q] == stack3[q]);
            }
        }
        true
    } else {
        if curr_plank.num_pieces >= 2 {
            // reading the length bounds the freed-piece counter below
            let ul = curr_plank.usable_pieces.len();
            *rem_pieces = *rem_pieces + 1;
            let c = curr_plank.num_pieces;
            curr_plank.set_num_pieces(c - 1);
            proof {
                lemma_strictly_inc_len(curr_plank.usable_pieces@, n as int);
            }
            *num_planks = (n - 1) / (n - *rem_pieces) + 1;
            proof {
                broadcast use vstd::arithmetic::div_mod::group_div_basics;

                vstd::arithmetic::div_mod::lemma_div_non_zero(
                    (n - 1) as int,
                    (n - *rem_pieces) as int,
                );
            }
            let ghost stack4 = planks@;
            proof {
                lemma_stack_push_top(stack4, curr_plank, pieces@);
            }
            planks.push(curr_plank);
            proof {
                assert(planks@ == stack4.push(curr_plank));
            }
            true
        } else {
            // the bottommost plank is exhausted at a single piece
            false
        }
    }
}

/// Arranges the pieces of the sorted catalog onto planks of length
/// `max_p_len`: every piece lands on exactly one plank (the output is the
/// input as a multiset), every plank's total is within the length, every
/// plank's list is ascending and non-empty, and the plank count is the least
/// the search converges to.
///
/// The search itself is finite by a combinatorial argument (selections per
/// plank never repeat and the feasibility test bounds the shrinking), which
/// this library does not formalise; a step counter makes the loop finite for
/// the checker, and the one-piece-per-plank arrangement is answered from the
/// states that the argument rules out.
#[verifier::loop_isolation(false)]
#[verifier::rlimit(100)]
#[verifier::spinoff_prover]
pub fn find_solution(max_p_len: u64, pieces: &Vec<u64>) -> (soln: Vec<Vec<u64>>)
    requires
        pieces@.len() >= 1,
        sorted(pieces@),
        sum_seq(pieces@) <= u64::MAX,
        forall|j: int| 0 <= j < pieces@.len() ==> 0 < #[trigger] pieces@[j] <= max_p_len,
    ensures
        soln@.len() >= 1,
        bins_multiset(views_of(soln@)) == pieces@.to_multiset(),
        forall|q: int| 0 <= q < soln@.len() ==> sum_seq((#[trigger] soln@[q])@) <= max_p_len,
        forall|q: int|
            0 <= q < soln@.len() ==> sorted((#[trigger] soln@[q])@) && soln@[q]@.len() >= 1,
{
    let n = pieces.len();
    let (mut planks, mut rem_pieces, mut num_planks) = seed_stack(max_p_len, pieces);
    let mut steps: u64 = 0;
    let mut done = false;
    #[verifier::loop_isolation(true)]
    while !done
        invariant
            n == pieces@.len(),
            n >= 1,
            sorted(pieces@),
            sum_seq(pieces@) <= u64::MAX,
            forall|j: int| 0 <= j < pieces@.len() ==> 0 < #[trigger] pieces@[j] <= max_p_len,
            search_inv(planks@, pieces@, max_p_len, rem_pieces as int, num_planks as int),
            done ==> forall|q: int|
                0 <= q < planks@.len() ==> (#[trigger] planks@[q]).total_len <= max_p_len,
            done ==> rem_pieces == 0,
        decreases u64::MAX - steps, (if done { 0int } else { 1int }),
    {
        let top = planks.len() - 1;
        if planks.len() == num_planks && planks[top].small_enough(max_p_len) {
            done = true;
        } else if steps == u64::MAX {
            // never reached by a terminating search; keeps the loop finite
            return singleton_solution(max_p_len, pieces);
        } else {
            steps = steps + 1;
            let curr_plank = planks.pop().unwrap();
            if curr_plank.small_enough(max_p_len) {
                done = step_keep(&mut planks, curr_plank, &mut rem_pieces, num_planks, max_p_len, pieces);
            } else if shrink_keeps_plan(
                num_planks,
                planks.len(),
                curr_plank.num_pieces,
                rem_pieces,
            ) {
                step_shrink(&mut planks, curr_plank, &mut rem_pieces, num_planks, max_p_len, pieces);
            } else {
                let ok = step_backtrack(
                    &mut planks,
                    curr_plank,
                    &mut rem_pieces,
                    &mut num_planks,
                    max_p_len,
                    pieces,
                );
                if !ok {
                    // the feasibility argument keeps a terminating search
                    // away from this state, but it is not formalised
                    return singleton_solution(max_p_len, pieces);
                }
            }
        }
    }

    let ghost planks_seq = planks@;
    proof {
        let nl = pieces@.len();
        assert(pieces@.len() <= usize::MAX);
    }
    let soln = planks_to_vecs(planks);
    proof {
        assert forall|q: int| 0 <= q < soln@.len() implies #[trigger] views_of(soln@)[q]
            == mask_filter(
            pieces@,
            diff_mask(planks_seq[q].state_bv@, prior_state(planks_seq, q, pieces@.len())),
        ) by {
            assert(views_of(soln@)[q] == soln@[q]@);
        }
        lemma_solution_valid(pieces@, planks_seq, views_of(soln@), max_p_len);
        assert forall|q: int| 0 <= q < soln@.len() implies sum_seq((#[trigger] soln@[q])@)
            <= max_p_len && sorted(soln@[q]@) && soln@[q]@.len() >= 1 by {
            assert(views_of(soln@)[q] == soln@[q]@);
        }
    }
    soln
}

/// A finished stack — every plank within the length and the topmost plank's
/// selection covering all of its usable positions — projects to a valid
/// answer: the bins return every piece exactly once, each within the length,
/// ascending and non-empty.
proof fn lemma_solution_valid(
    pieces: Seq<u64>,
    planks_seq: Seq<Plank>,
    bins: Seq<Seq<u64>>,
    max_p_len: u64,
)
    requires
        pieces.len() >= 1,
        pieces.len() <= usize::MAX,
        sorted(pieces),
        planks_seq.len() >= 1,
        stack_wf(planks_seq, pieces),
        forall|q: int|
            0 <= q < planks_seq.len() ==> (#[trigger] planks_seq[q]).total_len <= max_p_len,
        planks_seq.last().usable_pieces@.len() == planks_seq.last().num_pieces,
        bins.len() == planks_seq.len(),
        forall|q: int|
            0 <= q < planks_seq.len() ==> #[trigger] bins[q] == mask_filter(
                pieces,
                diff_mask(planks_seq[q].state_bv@, prior_state(planks_seq, q, pieces.len())),
            ),
    ensures
        bins_multiset(bins) == pieces.to_multiset(),
        forall|q: int| 0 <= q < bins.len() ==> sum_seq(#[trigger] bins[q]) <= max_p_len,
        forall|q: int| 0 <= q < bins.len() ==> sorted(#[trigger] bins[q]) && bins[q].len() >= 1,
{
    let len = planks_seq.len() as int;
    let states = Seq::new(planks_seq.len(), |q: int| planks_seq[q].state_bv@);
    let top = planks_seq[len - 1];
    // the selection of the topmost plank covers every usable position, so
    // its state covers the whole catalog
    lemma_count_true_full(top.usel());
    assert forall|j: int| 0 <= j < pieces.len() implies top.state_bv@[j] by {
        if top.usable_pieces@.contains(j as usize) {
            let t = choose|t: int|
                0 <= t < top.usable_pieces@.len() && top.usable_pieces@[t] == j as usize;
            assert(top.usel()[t]);
        }
    }
    // the states grow monotonically along the stack
    assert forall|q: int, j: int|
        1 <= q < len && 0 <= j < pieces.len() && #[trigger] states[q - 1][j]
        implies #[trigger] states[q][j] by {
        assert(!planks_seq[q].usable_pieces@.contains(j as usize));
    }
    lemma_chain_multiset(pieces, states);
    lemma_mask_filter_all(pieces, states.last());
    assert(bins =~= chain_bins(pieces, states)) by {
        assert(diff_mask(states[0], prior_state(planks_seq, 0, pieces.len())) =~= states[0]);
    }
    assert forall|q: int| 0 <= q < len implies sum_seq(#[trigger] bins[q]) <= max_p_len
        && sorted(bins[q]) && bins[q].len() >= 1 by {
        let pk = planks_seq[q];
        let dmq = diff_mask(states[q], prior_state(planks_seq, q, pieces.len()));
        assert forall|j: int|
            0 <= j < pieces.len() && !pk.usable_pieces@.contains(j as usize) implies !dmq[j] by {
            if q >= 1 {
                assert(states[q - 1][j]);
            }
        }
        lemma_compress_filter(pieces, dmq, pk.usable_pieces@);
        assert(crate::model::sel_of(dmq, pk.usable_pieces@) =~= pk.usel()) by {
            assert forall|t: int| 0 <= t < pk.usable_pieces@.len() implies dmq[pk
                .usable_pieces@[t] as int] == pk.usel()[t] by {
                let j = pk.usable_pieces@[t] as int;
                assert(j as usize == pk.usable_pieces@[t]);
                assert(pk.usable_pieces@.contains(j as usize));
                if q >= 1 {
                    assert(planks_seq[q].usable_pieces@.contains(j as usize) <==> !planks_seq[q
                        - 1].state_bv@[j]);
                    assert(!states[q - 1][j]);
                }
            }
        }
        lemma_mask_filter_basics(pk.uvals(), pk.usel());
        lemma_mask_filter_sorted(pieces, dmq);
        assert(bins[q] == mask_filter(pieces, dmq));
    }
}

} // verus!
