//! One plank (bin) of the search.  A `Plank` owns a snapshot of which catalog
//! positions earlier planks have already taken, the ordered list of positions
//! still usable, and a frontier of pending candidate selections; it
//! enumerates the ways to place `num_pieces` usable pieces on the plank in
//! non-decreasing order of their total length, without repeating a selection
//! even when many pieces share a length.

use core::cmp::Reverse;
use priority_queue::PriorityQueue;
use vstd::pervasive::cloned;
use vstd::pervasive::VecAdditionalExecFns;
use vstd::prelude::*;

use crate::frontier::{empty_frontier, fq_is_empty, fq_new, fq_pop, fq_push, frontier_of};
use crate::model::{
    canonical_sel, count_false, count_true, lemma_canonical_shape, lemma_count_true_update,
    lemma_sum_sel_le, lemma_sum_sel_take_step, lemma_sum_sel_update, lemma_vals_of_sorted,
    lemma_vals_of_sum, sel_of, shape_sel, sorted, strictly_inc, sum_seq, sum_sel, vals_of,
};

verus! {

/// One bin of the search, with its own view of the catalog.
pub struct Plank {
    /// The whole catalog of piece lengths, ascending.
    pub all_pieces: Vec<u64>,
    /// The catalog positions that were still free when this plank was made,
    /// in ascending order.
    pub usable_pieces: Vec<usize>,
    /// How many usable positions are currently selected for this plank.
    pub num_pieces: usize,
    /// The total length of the selected pieces.
    pub total_len: u64,
    /// One bit per catalog position: true on every position inherited from
    /// earlier planks and on every position selected for this one.
    pub state_bv: Vec<bool>,
    /// Pending candidate states, keyed by the sum each would produce.
    pub bit_queue: PriorityQueue<Vec<bool>, Reverse<u64>>,
}

impl Plank {
    /// Catalog size.
    pub open spec fn n(self) -> int {
        self.all_pieces@.len() as int
    }

    /// The lengths at the usable positions, ascending.
    pub open spec fn uvals(self) -> Seq<u64> {
        vals_of(self.all_pieces@, self.usable_pieces@)
    }

    /// The current selection, restricted to the usable positions.
    pub open spec fn usel(self) -> Seq<bool> {
        sel_of(self.state_bv@, self.usable_pieces@)
    }

    /// The pending candidate states and their sums.
    pub open spec fn frontier(self) -> Map<Seq<bool>, u64> {
        frontier_of(self.bit_queue)
    }

    /// A sound frontier entry: a full-catalog mask that agrees with the
    /// current state away from the usable positions, selects exactly
    /// `num_pieces` usable positions, and is keyed by the sum it selects,
    /// which is never below the current total.
    pub open spec fn entry_wf(self, b: Seq<bool>, s: u64) -> bool {
        &&& b.len() == self.n()
        &&& forall|j: int|
            0 <= j < self.n() && !self.usable_pieces@.contains(j as usize) ==> b[j]
                == self.state_bv@[j]
        &&& count_true(sel_of(b, self.usable_pieces@)) == self.num_pieces
        &&& s == sum_sel(self.uvals(), sel_of(b, self.usable_pieces@))
        &&& s >= self.total_len
    }

    /// Structure that every plank keeps from construction on: a sorted
    /// catalog whose total fits the length type, an ascending in-range
    /// usable list, and every non-usable position marked as taken.
    pub open spec fn base_wf(self) -> bool {
        &&& sorted(self.all_pieces@)
        &&& sum_seq(self.all_pieces@) <= u64::MAX
        &&& self.state_bv@.len() == self.n()
        &&& strictly_inc(self.usable_pieces@)
        &&& forall|t: int|
            0 <= t < self.usable_pieces@.len() ==> (#[trigger] self.usable_pieces@[t]) < self.n()
        &&& forall|j: int|
            0 <= j < self.n() && !self.usable_pieces@.contains(j as usize)
                ==> self.state_bv@[j]
    }

    /// Full well-formedness: exactly `num_pieces` usable positions selected,
    /// the running total equal to their summed lengths, and every frontier
    /// entry sound.
    pub open spec fn wf(self) -> bool {
        &&& self.base_wf()
        &&& 1 <= self.num_pieces <= self.usable_pieces@.len()
        &&& count_true(self.usel()) == self.num_pieces
        &&& self.total_len == sum_sel(self.uvals(), self.usel())
        &&& forall|b: Seq<bool>|
            #[trigger] self.frontier().contains_key(b) ==> self.entry_wf(b, self.frontier()[b])
    }

    /// Whether the pieces on this plank fit a plank of length `max_len`.
    /// Lengths are integers, so the capacity check is exact.
    pub fn small_enough(&self, max_len: u64) -> (r: bool)
        ensures
            r == (self.total_len <= max_len),
    {
        self.total_len <= max_len
    }

    /// Whether another selection is pending.
    pub fn has_next(&self) -> (r: bool)
        ensures
            r <==> self.frontier() != empty_frontier(),
    {
        !fq_is_empty(&self.bit_queue)
    }

    /// Whether the `index`th usable position is selected.
    pub(crate) fn nth_bit_is_true(&self, index: &usize) -> (r: bool)
        requires
            self.base_wf(),
            *index < self.usable_pieces@.len(),
        ensures
            r == self.usel()[*index as int],
    {
        self.state_bv[self.usable_pieces[*index]]
    }

    /// Whether the usable positions `i_1` and `i_2` both exist and carry
    /// pieces of equal length.
    pub(crate) fn nth_pieces_equal(&self, i_1: &usize, i_2: &usize) -> (r: bool)
        requires
            self.base_wf(),
        ensures
            r == (*i_1 < self.usable_pieces@.len() && *i_2 < self.usable_pieces@.len()
                && self.uvals()[*i_1 as int] == self.uvals()[*i_2 as int]),
    {
        if *i_1 < self.usable_pieces.len() && *i_2 < self.usable_pieces.len() {
            self.all_pieces[self.usable_pieces[*i_1]] == self.all_pieces[self.usable_pieces[*i_2]]
        } else {
            false
        }
    }

    /// The length difference between the usable positions `i_1` and `i_2`.
    /// Lengths are unsigned, so a negative difference has no representation:
    /// the difference is `None` unless both positions exist and the piece at
    /// `i_1` is at least as long as the piece at `i_2`.
    pub(crate) fn nth_pieces_diff(&self, i_1: &usize, i_2: &usize) -> (r: Option<u64>)
        requires
            self.base_wf(),
        ensures
            r == if *i_1 < self.usable_pieces@.len() && *i_2 < self.usable_pieces@.len()
                && self.uvals()[*i_1 as int] >= self.uvals()[*i_2 as int] {
                Some((self.uvals()[*i_1 as int] - self.uvals()[*i_2 as int]) as u64)
            } else {
                Option::<u64>::None
            },
    {
        if *i_1 < self.usable_pieces.len() && *i_2 < self.usable_pieces.len() {
            let val_1 = self.all_pieces[self.usable_pieces[*i_1]];
            let val_2 = self.all_pieces[self.usable_pieces[*i_2]];
            if val_1 >= val_2 {
                Some(val_1 - val_2)
            } else {
                None
            }
        } else {
            None
        }
    }

    /// Writes the two-stretch selection `shape_sel(f, m, l)` into the state
    /// bits of the usable positions, in ascending order, and accumulates the
    /// total length of the selected pieces.
    #[verifier::loop_isolation(false)]
    fn apply_shape(&mut self, first_same: usize, mid_same: usize, last_same: usize)
        requires
            old(self).base_wf(),
            frontier_of(old(self).bit_queue) == empty_frontier(),
            old(self).total_len == 0,
            first_same <= mid_same,
            mid_same <= last_same + 1,
            last_same < old(self).usable_pieces@.len(),
        ensures
            final(self).base_wf(),
            final(self).all_pieces@ == old(self).all_pieces@,
            final(self).usable_pieces@ == old(self).usable_pieces@,
            final(self).num_pieces == old(self).num_pieces,
            final(self).bit_queue == old(self).bit_queue,
            final(self).state_bv@.len() == old(self).state_bv@.len(),
            forall|j: int|
                0 <= j < final(self).n() && !final(self).usable_pieces@.contains(j as usize)
                    ==> final(self).state_bv@[j] == old(self).state_bv@[j],
            final(self).usel() == shape_sel(
                final(self).usable_pieces@.len(),
                first_same as int,
                mid_same as int,
                last_same as int,
            ),
            final(self).total_len == sum_sel(final(self).uvals(), final(self).usel()),
    {
        let ghost s0 = *self;
        let ghost u = self.usable_pieces@;
        let ghost uv = self.uvals();
        // reading the length puts the catalog's size in range for the lemmas
        let n_len = self.all_pieces.len();
        proof {
            assert(self.all_pieces@.len() == n_len);
            lemma_vals_of_sorted(self.all_pieces@, u);
            lemma_vals_of_sum(self.all_pieces@, u);
        }
        let ulen = self.usable_pieces.len();
        let ghost tgt = shape_sel(u.len(), first_same as int, mid_same as int, last_same as int);

        let mut i: usize = 0;
        while i < first_same
            invariant
                i <= first_same,
                self.all_pieces@ == s0.all_pieces@,
                self.usable_pieces@ == s0.usable_pieces@,
                self.num_pieces == s0.num_pieces,
                self.bit_queue == s0.bit_queue,
                self.state_bv@.len() == s0.state_bv@.len(),
                forall|j: int|
                    0 <= j < self.n() && !u.contains(j as usize) ==> self.state_bv@[j]
                        == s0.state_bv@[j],
                forall|t: int| 0 <= t < i ==> self.state_bv@[u[t] as int] == tgt[t],
                self.total_len == sum_sel(uv.take(i as int), tgt.take(i as int)),
            decreases first_same - i,
        {
            let index = self.usable_pieces[i];
            proof {
                lemma_sum_sel_take_step(uv, tgt, i as int);
                lemma_sum_sel_le(uv.take(i + 1), tgt.take(i + 1));
                crate::model::lemma_sum_seq_take(uv, i + 1);
                assert(u.contains(u[i as int]));
            }
            self.total_len = self.total_len + self.all_pieces[index];
            self.state_bv.set(index, true);
            i = i + 1;
        }
        while i < mid_same
            invariant
                first_same <= i <= mid_same,
                self.all_pieces@ == s0.all_pieces@,
                self.usable_pieces@ == s0.usable_pieces@,
                self.num_pieces == s0.num_pieces,
                self.bit_queue == s0.bit_queue,
                self.state_bv@.len() == s0.state_bv@.len(),
                forall|j: int|
                    0 <= j < self.n() && !u.contains(j as usize) ==> self.state_bv@[j]
                        == s0.state_bv@[j],
                forall|t: int| 0 <= t < i ==> self.state_bv@[u[t] as int] == tgt[t],
                self.total_len == sum_sel(uv.take(i as int), tgt.take(i as int)),
            decreases mid_same - i,
        {
            let index = self.usable_pieces[i];
            proof {
                lemma_sum_sel_take_step(uv, tgt, i as int);
                assert(u.contains(u[i as int]));
            }
            self.state_bv.set(index, false);
            i = i + 1;
        }
        while i < last_same + 1
            invariant
                mid_same <= i <= last_same + 1,
                self.all_pieces@ == s0.all_pieces@,
                self.usable_pieces@ == s0.usable_pieces@,
                self.num_pieces == s0.num_pieces,
                self.bit_queue == s0.bit_queue,
                self.state_bv@.len() == s0.state_bv@.len(),
                forall|j: int|
                    0 <= j < self.n() && !u.contains(j as usize) ==> self.state_bv@[j]
                        == s0.state_bv@[j],
                forall|t: int| 0 <= t < i ==> self.state_bv@[u[t] as int] == tgt[t],
                self.total_len == sum_sel(uv.take(i as int), tgt.take(i as int)),
            decreases last_same + 1 - i,
        {
            let index = self.usable_pieces[i];
            proof {
                lemma_sum_sel_take_step(uv, tgt, i as int);
                lemma_sum_sel_le(uv.take(i + 1), tgt.take(i + 1));
                crate::model::lemma_sum_seq_take(uv, i + 1);
                assert(u.contains(u[i as int]));
            }
            self.total_len = self.total_len + self.all_pieces[index];
            self.state_bv.set(index, true);
            i = i + 1;
        }
        while i < ulen
            invariant
                last_same + 1 <= i <= ulen,
                self.all_pieces@ == s0.all_pieces@,
                self.usable_pieces@ == s0.usable_pieces@,
                self.num_pieces == s0.num_pieces,
                self.bit_queue == s0.bit_queue,
                self.state_bv@.len() == s0.state_bv@.len(),
                forall|j: int|
                    0 <= j < self.n() && !u.contains(j as usize) ==> self.state_bv@[j]
                        == s0.state_bv@[j],
                forall|t: int| 0 <= t < i ==> self.state_bv@[u[t] as int] == tgt[t],
                self.total_len == sum_sel(uv.take(i as int), tgt.take(i as int)),
            decreases ulen - i,
        {
            let index = self.usable_pieces[i];
            proof {
                lemma_sum_sel_take_step(uv, tgt, i as int);
                assert(u.contains(u[i as int]));
            }
            self.state_bv.set(index, false);
            i = i + 1;
        }
        proof {
            assert(uv.take(ulen as int) =~= uv);
            assert(tgt.take(ulen as int) =~= tgt);
            assert(self.usel() =~= tgt);
            assert forall|j: int|
                0 <= j < self.n() && !self.usable_pieces@.contains(j as usize)
                    implies self.state_bv@[j] by {
                assert(self.state_bv@[j] == s0.state_bv@[j]);
            }
            assert(self.base_wf());
        }
    }

    /// Rebuilds the selection from scratch for a new target count: the
    /// least-sum selection of `num_pieces` usable pieces in canonical form
    /// (runs of equal lengths are taken from their right end), with the
    /// running total recomputed and the frontier reset and re-seeded with
    /// the candidate exchanges adjacent to the selection boundary.
    #[verifier::loop_isolation(false)]
    #[verifier::rlimit(100)]
    #[verifier::spinoff_prover]
    pub fn set_num_pieces(&mut self, num_pieces: usize)
        requires
            old(self).base_wf(),
            1 <= num_pieces <= old(self).usable_pieces@.len(),
        ensures
            final(self).wf(),
            final(self).all_pieces@ == old(self).all_pieces@,
            final(self).usable_pieces@ == old(self).usable_pieces@,
            final(self).num_pieces == num_pieces,
            forall|j: int|
                0 <= j < final(self).n() && !final(self).usable_pieces@.contains(j as usize)
                    ==> final(self).state_bv@[j] == old(self).state_bv@[j],
            final(self).usel() == canonical_sel(final(self).uvals(), num_pieces as int),
    {
        let ghost s0 = *self;
        let ghost u = self.usable_pieces@;
        let ghost uv = self.uvals();
        // reading the length puts the catalog's size in range for the lemmas
        let n_len = self.all_pieces.len();
        proof {
            assert(self.all_pieces@.len() == n_len);
            lemma_vals_of_sorted(self.all_pieces@, u);
            lemma_vals_of_sum(self.all_pieces@, u);
        }
        let ulen = self.usable_pieces.len();
        let ghost v = uv[num_pieces - 1];

        self.num_pieces = num_pieces;
        self.total_len = 0;
        self.bit_queue = fq_new();

        // find the run of usable pieces whose length equals that of the
        // largest piece the selection will hold
        let mut first_same: usize = num_pieces - 1;
        let mut last_same: usize = num_pieces - 1;
        while first_same > 0 && self.nth_pieces_equal(&first_same, &(first_same - 1))
            invariant
                first_same <= num_pieces - 1,
                forall|t: int| first_same <= t <= num_pieces - 1 ==> uv[t] == v,
            decreases first_same,
        {
            first_same = first_same - 1;
        }
        while self.nth_pieces_equal(&last_same, &(last_same + 1))
            invariant
                num_pieces - 1 <= last_same < ulen,
                forall|t: int| num_pieces - 1 <= t <= last_same ==> uv[t] == v,
            decreases ulen - last_same,
        {
            last_same = last_same + 1;
        }
        let mid_same = last_same - (num_pieces - 1 - first_same);

        self.apply_shape(first_same, mid_same, last_same);
        let ghost tgt = shape_sel(u.len(), first_same as int, mid_same as int, last_same as int);

        proof {
            lemma_canonical_shape(uv, num_pieces as int, first_same as int, last_same as int);
            assert(tgt == canonical_sel(uv, num_pieces as int));
            assert forall|b: Seq<bool>|
                #[trigger] self.frontier().contains_key(b) implies self.entry_wf(
                b,
                self.frontier()[b],
            ) by {
                assert(!empty_frontier().dom().contains(b));
            }
            assert(self.wf());
        }

        // seed the frontier with the exchanges adjacent to the boundary
        if last_same < ulen - 1 {
            proof {
                assert(self.usel()[last_same as int] && !self.usel()[last_same + 1]);
            }
            self.push_to_queue(&last_same);
        }
        if first_same > 0 && !self.nth_bit_is_true(&first_same) && self.nth_bit_is_true(
            &(first_same - 1),
        ) {
            self.push_to_queue(&(first_same - 1));
        }
    }

    /// Queues the candidate exchange at `index`: the selected piece of the
    /// run of equal lengths that ends at `index` leaves the plank at the
    /// run's left end, and the unselected piece of the run of equal lengths
    /// that starts at `index + 1` joins it at that run's right end.  Taking
    /// a run's pieces only from its ends is what keeps equal-valued pieces
    /// from producing the same selection twice.  The new state is keyed by
    /// the sum it would produce, which is never below the current total.
    #[verifier::loop_isolation(false)]
    pub(crate) fn push_to_queue(&mut self, index: &usize)
        requires
            old(self).wf(),
            *index + 1 < old(self).usable_pieces@.len(),
            old(self).usel()[*index as int],
            !old(self).usel()[*index as int + 1],
        ensures
            final(self).wf(),
            final(self).all_pieces@ == old(self).all_pieces@,
            final(self).usable_pieces@ == old(self).usable_pieces@,
            final(self).num_pieces == old(self).num_pieces,
            final(self).total_len == old(self).total_len,
            final(self).state_bv@ == old(self).state_bv@,
            exists|b: Seq<bool>, s: u64|
                final(self).frontier() == old(self).frontier().insert(b, s) && old(
                    self,
                ).entry_wf(b, s),
    {
        let ghost s0 = *self;
        let ghost u = self.usable_pieces@;
        let ghost uv = self.uvals();
        // reading the length puts the catalog's size in range for the lemmas
        let n_len = self.all_pieces.len();
        proof {
            assert(self.all_pieces@.len() == n_len);
            lemma_vals_of_sorted(self.all_pieces@, u);
            lemma_vals_of_sum(self.all_pieces@, u);
        }
        let ulen = self.usable_pieces.len();

        let mut new_bv = self.state_bv.clone();
        proof {
            assert forall|j: int| 0 <= j < self.state_bv@.len() implies new_bv@[j]
                == self.state_bv@[j] by {
                assert(cloned::<bool>(self.state_bv@[j], new_bv@[j]));
            }
            assert(new_bv@ =~= self.state_bv@);
        }
        let mut remove_index = *index;
        let mut add_index = *index + 1;

        // find the leftmost selected piece of the run of lengths equal to
        // the one leaving the plank
        while remove_index > 0 && self.nth_pieces_equal(&remove_index, &(remove_index - 1))
            && self.nth_bit_is_true(&(remove_index - 1))
            invariant
                remove_index <= *index,
                self.usel()[remove_index as int],
                uv[remove_index as int] == uv[*index as int],
            decreases remove_index,
        {
            remove_index = remove_index - 1;
        }
        // find the rightmost unselected piece of the run of lengths equal to
        // the one joining the plank
        while add_index < ulen - 1 && self.nth_pieces_equal(&add_index, &(add_index + 1))
            && !self.nth_bit_is_true(&(add_index + 1))
            invariant
                *index + 1 <= add_index < ulen,
                !self.usel()[add_index as int],
                uv[add_index as int] == uv[*index as int + 1],
            decreases ulen - add_index,
        {
            add_index = add_index + 1;
        }

        let ri = self.usable_pieces[remove_index];
        let ai = self.usable_pieces[add_index];
        new_bv.set(ri, false);
        new_bv.set(ai, true);
        let ghost rm = remove_index as int;
        let ghost ad = add_index as int;
        let ghost sel1 = s0.usel().update(rm, false);
        let ghost sel2 = sel1.update(ad, true);
        proof {
            assert(uv[ad] >= uv[rm]);
            lemma_sum_sel_update(uv, s0.usel(), rm, false);
            lemma_sum_sel_update(uv, sel1, ad, true);
            lemma_count_true_update(s0.usel(), rm, false);
            lemma_count_true_update(sel1, ad, true);
            lemma_sum_sel_le(uv, sel2);
        }
        let diff = match self.nth_pieces_diff(&add_index, &remove_index) {
            Some(d) => d,
            None => 0,
        };
        let new_total = self.total_len + diff;
        proof {
            assert forall|t: int, w: int|
                0 <= t < u.len() && 0 <= w < u.len() && t != w implies u[t] != u[w] by {
                if t < w {
                    assert(u[t] < u[w]);
                } else {
                    assert(u[w] < u[t]);
                }
            }
            assert(sel_of(new_bv@, u) =~= sel2);
            assert(new_total == sum_sel(uv, sel2));
            assert(s0.entry_wf(new_bv@, new_total)) by {
                assert forall|j: int|
                    0 <= j < s0.n() && !u.contains(j as usize) implies new_bv@[j]
                    == s0.state_bv@[j] by {
                    assert(u.contains(u[rm]));
                    assert(u.contains(u[ad]));
                }
            }
        }
        fq_push(&mut self.bit_queue, new_bv, new_total);
        proof {
            let fr0 = s0.frontier();
            let fr1 = self.frontier();
            assert(fr1 == fr0.insert(new_bv@, new_total));
            assert forall|b: Seq<bool>| #[trigger] fr1.contains_key(b) implies self.entry_wf(
                b,
                fr1[b],
            ) by {
                if b != new_bv@ {
                    assert(fr0.contains_key(b));
                    assert(fr1[b] == fr0[b]);
                }
            }
        }
    }
}

impl Plank {
    /// Builds a plank over the catalog positions that `prev_bits` leaves
    /// free, in ascending order, and selects the canonical least-sum
    /// `num_pieces` of them; the caller guarantees that `prev_bits` leaves at
    /// least `num_pieces` positions free.
    #[verifier::loop_isolation(false)]
    pub fn new(num_pieces: usize, prev_bits: &Vec<bool>, pieces: &Vec<u64>) -> (ret: Plank)
        requires
            sorted(pieces@),
            sum_seq(pieces@) <= u64::MAX,
            prev_bits@.len() == pieces@.len(),
            1 <= num_pieces <= count_false(prev_bits@),
        ensures
            ret.wf(),
            ret.all_pieces@ == pieces@,
            ret.num_pieces == num_pieces,
            ret.usable_pieces@.len() == count_false(prev_bits@),
            forall|j: int|
                0 <= j < pieces@.len() ==> (ret.usable_pieces@.contains(j as usize) <==> !prev_bits@[j]),
            forall|j: int|
                0 <= j < pieces@.len() && !ret.usable_pieces@.contains(j as usize)
                    ==> ret.state_bv@[j] == prev_bits@[j],
            ret.usel() == canonical_sel(ret.uvals(), num_pieces as int),
    {
        broadcast use vstd::seq_lib::group_seq_properties;

        let n = pieces.len();
        let mut available_pieces: Vec<usize> = Vec::new();
        let mut i: usize = 0;
        while i < n
            invariant
                i <= n,
                strictly_inc(available_pieces@),
                forall|t: int|
                    0 <= t < available_pieces@.len() ==> (#[trigger] available_pieces@[t]) < i,
                forall|j: int|
                    0 <= j < i ==> (available_pieces@.contains(j as usize) <==> !prev_bits@[j]),
                available_pieces@.len() + count_true(prev_bits@.take(i as int)) == i,
            decreases n - i,
        {
            proof {
                crate::model::lemma_count_take_step(prev_bits@, i as int);
            }
            if !prev_bits[i] {
                available_pieces.push(i);
            }
            i = i + 1;
        }
        proof {
            assert(prev_bits@.take(n as int) =~= prev_bits@);
        }
        let mut ret = Plank {
            all_pieces: pieces.clone(),
            usable_pieces: available_pieces,
            num_pieces: 0,
            total_len: 0,
            state_bv: prev_bits.clone(),
            bit_queue: fq_new(),
        };
        proof {
            assert forall|j: int| 0 <= j < ret.all_pieces@.len() implies ret.all_pieces@[j]
                == pieces@[j] by {
                assert(cloned::<u64>(pieces@[j], ret.all_pieces@[j]));
            }
            assert(ret.all_pieces@ =~= pieces@);
            assert forall|j: int| 0 <= j < ret.state_bv@.len() implies ret.state_bv@[j]
                == prev_bits@[j] by {
                assert(cloned::<bool>(prev_bits@[j], ret.state_bv@[j]));
            }
            assert(ret.state_bv@ =~= prev_bits@);
            assert(ret.base_wf());
        }
        ret.set_num_pieces(num_pieces);
        ret
    }

    /// Adopts a pending candidate of least sum as the current selection —
    /// across successive calls the sums never decrease — and queues a fresh
    /// candidate exchange at every boundary where a selected usable position
    /// is immediately followed by an unselected one.
    #[verifier::loop_isolation(false)]
    pub fn next(&mut self)
        requires
            old(self).wf(),
            old(self).frontier() != empty_frontier(),
        ensures
            final(self).wf(),
            final(self).all_pieces@ == old(self).all_pieces@,
            final(self).usable_pieces@ == old(self).usable_pieces@,
            final(self).num_pieces == old(self).num_pieces,
            final(self).total_len >= old(self).total_len,
            old(self).frontier().contains_key(final(self).state_bv@),
            final(self).total_len == old(self).frontier()[final(self).state_bv@],
            forall|b: Seq<bool>|
                #[trigger] old(self).frontier().contains_key(b) ==> final(self).total_len
                    <= old(self).frontier()[b],
            forall|b: Seq<bool>|
                #[trigger] old(self).frontier().contains_key(b) && b != final(self).state_bv@
                    ==> final(self).frontier().contains_key(b) && final(self).frontier()[b]
                    == old(self).frontier()[b],
    {
        let ghost s0 = *self;
        let popped = fq_pop(&mut self.bit_queue);
        match popped {
            Some(entry) => {
                let (bv, popped_len) = entry;
                self.total_len = popped_len;
                self.state_bv = bv;
            },
            None => {
                proof {
                    assert(false);
                }
            },
        }
        proof {
            let ghost u = self.usable_pieces@;
            assert(s0.entry_wf(self.state_bv@, self.total_len));
            assert(self.usel() == sel_of(self.state_bv@, u));
            assert forall|b: Seq<bool>|
                #[trigger] self.frontier().contains_key(b) implies self.entry_wf(
                b,
                self.frontier()[b],
            ) by {
                assert(s0.frontier().contains_key(b));
                assert(s0.entry_wf(b, s0.frontier()[b]));
            }
            assert(self.wf());
        }
        let ghost s1 = *self;
        let mut i: usize = 0;
        let ulen = self.usable_pieces.len();
        while i < ulen - 1
            invariant
                i <= ulen - 1,
                self.wf(),
                self.all_pieces@ == s1.all_pieces@,
                self.usable_pieces@ == s1.usable_pieces@,
                self.num_pieces == s1.num_pieces,
                self.total_len == s1.total_len,
                self.state_bv@ == s1.state_bv@,
                // nothing already pending is lost or re-keyed by the rescan
                forall|b: Seq<bool>|
                    #[trigger] s1.frontier().contains_key(b) ==> self.frontier().contains_key(b)
                        && self.frontier()[b] == s1.frontier()[b],
            decreases ulen - 1 - i,
        {
            let ghost before = *self;
            if self.nth_bit_is_true(&i) && !self.nth_bit_is_true(&(i + 1)) {
                self.push_to_queue(&i);
                proof {
                    let (b2, s2) = choose|b2: Seq<bool>, s2: u64|
                        self.frontier() == before.frontier().insert(b2, s2) && before.entry_wf(
                            b2,
                            s2,
                        );
                    assert forall|b: Seq<bool>|
                        #[trigger] s1.frontier().contains_key(b) implies self.frontier()
                        .contains_key(b) && self.frontier()[b] == s1.frontier()[b] by {
                        if b == b2 {
                            assert(before.frontier().contains_key(b));
                            assert(before.entry_wf(b, before.frontier()[b]));
                        }
                    }
                }
            }
            i = i + 1;
        }
        proof {
            assert forall|b: Seq<bool>|
                #[trigger] s0.frontier().contains_key(b) && b != self.state_bv@ implies self
                .frontier().contains_key(b) && self.frontier()[b] == s0.frontier()[b] by {
                assert(s1.frontier().contains_key(b));
                assert(s1.frontier()[b] == s0.frontier()[b]);
            }
        }
    }
}

} // verus!
