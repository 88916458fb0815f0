//! What holds of every sorted row, whatever the row and the options.

use vstd::prelude::*;
use vstd::seq_lib::*;
use crate::options::SortOptions;
use crate::pixel::Pixel;
use crate::run::{
    lemma_sorted_run_contains, lemma_sorted_run_idempotent, lemma_sorted_run_in_order,
    lemma_sorted_run_multiset, rank, sorted_run,
};

verus! {

impl SortOptions {
    /// The run before a position: it starts at `run_start`, holds sortable
    /// pixels only, and cannot be extended to the left.
    proof fn lemma_run_start_is_start(self, s: Seq<Pixel>, i: int)
        requires
            0 <= i <= s.len(),
        ensures
            0 <= self.run_start(s, i) <= i,
            forall|j: int| self.run_start(s, i) <= j < i ==> self.sortable(#[trigger] s[j]),
            self.run_start(s, i) == 0 || !self.sortable(s[self.run_start(s, i) - 1]),
        decreases i,
    {
        if 0 < i && self.sortable(s[i - 1]) {
            self.lemma_run_start_is_start(s, i - 1);
        }
    }

    /// The run from a position on: it ends at `run_end`, holds sortable pixels
    /// only, and cannot be extended to the right.
    proof fn lemma_run_end_is_end(self, s: Seq<Pixel>, i: int)
        requires
            0 <= i <= s.len(),
        ensures
            i <= self.run_end(s, i) <= s.len(),
            forall|j: int| i <= j < self.run_end(s, i) ==> self.sortable(#[trigger] s[j]),
            self.run_end(s, i) == s.len() || !self.sortable(s[self.run_end(s, i)]),
        decreases s.len() - i,
    {
        if i < s.len() && self.sortable(s[i]) {
            self.lemma_run_end_is_end(s, i + 1);
        }
    }

    /// Every sortable pixel lies in one maximal run, which reaches from
    /// `run_start` to `run_end` of its position.
    pub proof fn lemma_sortable_lies_in_run(self, s: Seq<Pixel>, i: int)
        requires
            0 <= i < s.len(),
            self.sortable(s[i]),
        ensures
            self.is_run(s, self.run_start(s, i), self.run_end(s, i)),
            self.run_start(s, i) <= i < self.run_end(s, i),
    {
        self.lemma_run_start_is_start(s, i);
        self.lemma_run_end_is_end(s, i);
        let a = self.run_start(s, i);
        let b = self.run_end(s, i);
        assert(self.run_end(s, i) == self.run_end(s, i + 1));
        self.lemma_run_end_is_end(s, i + 1);
        assert forall|j: int| a <= j < b implies self.sortable(#[trigger] s[j]) by {
            if j < i {
            } else if j == i {
            } else {
            }
        }
    }

    /// Sorting a row sorts each maximal run of sortable pixels where it
    /// stands.
    pub proof fn lemma_run_is_sorted_in_place(self, s: Seq<Pixel>, a: int, b: int)
        requires
            self.is_run(s, a, b),
        ensures
            self.sorted_row(s).subrange(a, b) == sorted_run(s.subrange(a, b), self.heuristic, self.reverse),
    {
        let run = s.subrange(a, b);
        let sorted = sorted_run(run, self.heuristic, self.reverse);
        lemma_sorted_run_multiset(run, self.heuristic, self.reverse);
        assert forall|i: int| 0 <= i < b - a implies self.sorted_row(s).subrange(a, b)[i]
            == sorted[i] by {
            self.lemma_run_bounds(s, a, b, a + i);
            assert(self.sortable(s[a + i]));
        }
        assert(self.sorted_row(s).subrange(a, b) =~= sorted);
    }

    /// A pixel that is not sortable keeps its place: sorting a row changes
    /// neither its value nor its position.
    pub proof fn lemma_unsortable_stays(self, s: Seq<Pixel>, i: int)
        requires
            0 <= i < s.len(),
            !self.sortable(s[i]),
        ensures
            self.sorted_row(s)[i] == s[i],
    {
    }

    /// With the alpha mask set, a pixel of alpha 0 keeps its place, whatever
    /// its heuristic value and the range.
    pub proof fn lemma_masked_stays(self, s: Seq<Pixel>, i: int)
        requires
            0 <= i < s.len(),
            self.mask_alpha,
            s[i].a == 0,
        ensures
            self.sorted_row(s)[i] == s[i],
    {
    }

    /// Sorting does not change which positions hold sortable pixels.
    pub proof fn lemma_sortable_positions_stay(self, s: Seq<Pixel>, i: int)
        requires
            0 <= i < s.len(),
        ensures
            self.sortable(self.sorted_row(s)[i]) == self.sortable(s[i]),
    {
        if self.sortable(s[i]) {
            self.lemma_sortable_lies_in_run(s, i);
            let a = self.run_start(s, i);
            let b = self.run_end(s, i);
            let run = s.subrange(a, b);
            lemma_sorted_run_contains(run, self.heuristic, self.reverse, i - a);
            let p = sorted_run(run, self.heuristic, self.reverse)[i - a];
            let j = choose|j: int| 0 <= j < run.len() && run[j] == p;
            assert(run[j] == s[a + j]);
            assert(self.sortable(s[a + j]));
        }
    }

    /// The maximal runs of a sorted row are those of the row before sorting.
    pub proof fn lemma_runs_stay(self, s: Seq<Pixel>, a: int, b: int)
        requires
            0 <= a <= b <= s.len(),
        ensures
            self.is_run(self.sorted_row(s), a, b) == self.is_run(s, a, b),
    {
        let t = self.sorted_row(s);
        assert forall|i: int| 0 <= i < s.len() implies self.sortable(#[trigger] t[i])
            == self.sortable(s[i]) by {
            self.lemma_sortable_positions_stay(s, i);
        }
        if self.is_run(s, a, b) {
            assert forall|i: int| a <= i < b implies self.sortable(#[trigger] t[i]) by {
                assert(self.sortable(s[i]));
            }
        }
        if self.is_run(t, a, b) {
            assert forall|i: int| a <= i < b implies self.sortable(#[trigger] s[i]) by {
                assert(self.sortable(t[i]));
            }
        }
    }

    /// Up to a position that is not inside a run, a sorted row holds the
    /// pixels that the row held up to there.
    proof fn lemma_prefix_multiset(self, s: Seq<Pixel>, p: int)
        requires
            0 <= p <= s.len(),
            p == 0 || p == s.len() || !self.sortable(s[p - 1]) || !self.sortable(s[p]),
        ensures
            self.sorted_row(s).take(p).to_multiset() == s.take(p).to_multiset(),
        decreases p,
    {
        let t = self.sorted_row(s);
        if p == 0 {
            assert(t.take(0) =~= s.take(0));
        } else if !self.sortable(s[p - 1]) {
            self.lemma_prefix_multiset(s, p - 1);
            assert(t.take(p) =~= t.take(p - 1).push(s[p - 1]));
            assert(s.take(p) =~= s.take(p - 1).push(s[p - 1]));
            to_multiset_build(t.take(p - 1), s[p - 1]);
            to_multiset_build(s.take(p - 1), s[p - 1]);
        } else {
            let a = self.run_start(s, p);
            self.lemma_run_start_is_start(s, p);
            self.lemma_run_start_is_start(s, p - 1);
            assert(self.is_run(s, a, p));
            self.lemma_prefix_multiset(s, a);
            self.lemma_run_is_sorted_in_place(s, a, p);
            lemma_sorted_run_multiset(s.subrange(a, p), self.heuristic, self.reverse);
            assert(t.take(p) =~= t.take(a) + t.subrange(a, p));
            assert(s.take(p) =~= s.take(a) + s.subrange(a, p));
            lemma_multiset_commutative(t.take(a), t.subrange(a, p));
            lemma_multiset_commutative(s.take(a), s.subrange(a, p));
        }
    }

    /// A sorted row holds the pixels that the row held, each as often: sorting
    /// changes positions only.
    pub proof fn lemma_sorted_row_multiset(self, s: Seq<Pixel>)
        ensures
            self.sorted_row(s).to_multiset() == s.to_multiset(),
            self.sorted_row(s).len() == s.len(),
    {
        self.lemma_prefix_multiset(s, s.len() as int);
        assert(self.sorted_row(s).take(s.len() as int) =~= self.sorted_row(s));
        assert(s.take(s.len() as int) =~= s);
    }

    /// Sorting a row twice with the same options gives what sorting it once
    /// gives.
    pub proof fn lemma_sorted_row_idempotent(self, s: Seq<Pixel>)
        ensures
            self.sorted_row(self.sorted_row(s)) == self.sorted_row(s),
    {
        let t = self.sorted_row(s);
        assert forall|i: int| 0 <= i < s.len() implies self.sorted_pixel(t, i) == t[i] by {
            self.lemma_sortable_positions_stay(s, i);
            if self.sortable(s[i]) {
                self.lemma_sortable_lies_in_run(s, i);
                let a = self.run_start(s, i);
                let b = self.run_end(s, i);
                self.lemma_runs_stay(s, a, b);
                self.lemma_run_bounds(t, a, b, i);
                self.lemma_run_is_sorted_in_place(s, a, b);
                lemma_sorted_run_idempotent(s.subrange(a, b), self.heuristic, self.reverse);
            }
        }
        assert(self.sorted_row(t) =~= t);
    }

    /// In every maximal run of sortable pixels of a sorted row the heuristic
    /// values never fall from left to right, or never rise if `reverse` is
    /// set.
    pub proof fn lemma_sorted_row_runs_in_order(self, s: Seq<Pixel>, a: int, b: int, i: int, j: int)
        requires
            self.is_run(self.sorted_row(s), a, b),
            a <= i <= j < b,
        ensures
            !self.reverse ==> self.heuristic.value(self.sorted_row(s)[i]) <= self.heuristic.value(
                self.sorted_row(s)[j],
            ),
            self.reverse ==> self.heuristic.value(self.sorted_row(s)[i]) >= self.heuristic.value(
                self.sorted_row(s)[j],
            ),
    {
        let t = self.sorted_row(s);
        self.lemma_runs_stay(s, a, b);
        self.lemma_run_is_sorted_in_place(s, a, b);
        let sorted = sorted_run(s.subrange(a, b), self.heuristic, self.reverse);
        lemma_sorted_run_in_order(s.subrange(a, b), self.heuristic, self.reverse);
        assert(t.subrange(a, b)[i - a] == t[i]);
        assert(t.subrange(a, b)[j - a] == t[j]);
        assert(rank(self.heuristic, self.reverse, sorted[i - a]) <= rank(
            self.heuristic,
            self.reverse,
            sorted[j - a],
        ));
    }

    /// Options that agree on the heuristic, on the direction and on which
    /// pixels of a row are sortable sort that row alike.
    pub proof fn lemma_same_choice_same_row(self, other: SortOptions, s: Seq<Pixel>)
        requires
            self.heuristic == other.heuristic,
            self.reverse == other.reverse,
            forall|i: int| 0 <= i < s.len() ==> self.sortable(#[trigger] s[i]) == other.sortable(s[i]),
        ensures
            self.sorted_row(s) == other.sorted_row(s),
    {
        assert forall|i: int| 0 <= i < s.len() implies self.sorted_pixel(s, i) == other.sorted_pixel(
            s,
            i,
        ) by {
            assert(self.sortable(s[i]) == other.sortable(s[i]));
            if self.sortable(s[i]) {
                self.lemma_sortable_lies_in_run(s, i);
                let a = self.run_start(s, i);
                let b = self.run_end(s, i);
                assert forall|j: int| a <= j < b implies other.sortable(#[trigger] s[j]) by {
                    assert(self.sortable(s[j]));
                }
                if a > 0 {
                    assert(self.sortable(s[a - 1]) == other.sortable(s[a - 1]));
                }
                if b < s.len() {
                    assert(self.sortable(s[b]) == other.sortable(s[b]));
                }
                other.lemma_run_bounds(s, a, b, i);
            }
        }
        assert(self.sorted_row(s) =~= other.sorted_row(s));
    }

    /// On a row without a pixel of alpha 0 the alpha mask makes no difference.
    pub proof fn lemma_opaque_row_ignores_mask(self, s: Seq<Pixel>)
        requires
            forall|i: int| 0 <= i < s.len() ==> (#[trigger] s[i]).a != 0,
        ensures
            (SortOptions { mask_alpha: true, ..self }).sorted_row(s) == (SortOptions {
                mask_alpha: false,
                ..self
            }).sorted_row(s),
    {
        let masked = SortOptions { mask_alpha: true, ..self };
        let plain = SortOptions { mask_alpha: false, ..self };
        assert forall|i: int| 0 <= i < s.len() implies masked.sortable(#[trigger] s[i])
            == plain.sortable(s[i]) by {
            assert(s[i].a != 0);
        }
        masked.lemma_same_choice_same_row(plain, s);
    }

    /// A row without a sortable pixel is left as it is.
    pub proof fn lemma_nothing_sortable(self, s: Seq<Pixel>)
        requires
            forall|i: int| 0 <= i < s.len() ==> !self.sortable(#[trigger] s[i]),
        ensures
            self.sorted_row(s) == s,
    {
        assert(self.sorted_row(s) =~= s);
    }

    /// A row of sortable pixels only is sorted as one run.
    pub proof fn lemma_all_sortable(self, s: Seq<Pixel>)
        requires
            forall|i: int| 0 <= i < s.len() ==> self.sortable(#[trigger] s[i]),
        ensures
            self.sorted_row(s) == sorted_run(s, self.heuristic, self.reverse),
    {
        if s.len() == 0 {
            lemma_sorted_run_multiset(s, self.heuristic, self.reverse);
            assert(self.sorted_row(s) =~= sorted_run(s, self.heuristic, self.reverse));
        } else {
            assert(self.is_run(s, 0, s.len() as int));
            self.lemma_run_is_sorted_in_place(s, 0, s.len() as int);
            assert(s.subrange(0, s.len() as int) =~= s);
            assert(self.sorted_row(s).subrange(0, s.len() as int) =~= self.sorted_row(s));
        }
    }

    /// No pixel lies in a range whose minimum exceeds its maximum. Sorting
    /// then leaves a row as it is; with `invert` set, and no pixel held back
    /// by the alpha mask, it sorts the row as one run.
    pub proof fn lemma_empty_range(self, s: Seq<Pixel>)
        requires
            self.minimum > self.maximum,
        ensures
            forall|p: Pixel| !self.in_range(p),
            !self.invert ==> self.sorted_row(s) == s,
            self.invert && (forall|i: int| 0 <= i < s.len() ==> self.mask_passes(#[trigger] s[i]))
                ==> self.sorted_row(s) == sorted_run(s, self.heuristic, self.reverse),
    {
        if !self.invert {
            self.lemma_nothing_sortable(s);
        } else if forall|i: int| 0 <= i < s.len() ==> self.mask_passes(#[trigger] s[i]) {
            assert forall|i: int| 0 <= i < s.len() implies self.sortable(#[trigger] s[i]) by {
                assert(self.mask_passes(s[i]));
            }
            self.lemma_all_sortable(s);
        }
    }

    /// The positions of `s` that hold sortable pixels.
    pub open spec fn sortable_positions(self, s: Seq<Pixel>) -> Set<int> {
        Set::new(|i: int| 0 <= i < s.len() && self.sortable(s[i]))
    }

    /// These options with `invert` set to the given value.
    pub open spec fn with_invert(self, invert: bool) -> SortOptions {
        SortOptions { invert, ..self }
    }

    /// In a row that the alpha mask holds no pixel of back, the positions that
    /// are sortable with `invert` set are those that are not sortable without
    /// it, all else being the same.
    pub proof fn lemma_invert_complements(self, s: Seq<Pixel>)
        requires
            forall|i: int| 0 <= i < s.len() ==> self.mask_passes(#[trigger] s[i]),
        ensures
            self.with_invert(true).sortable_positions(s) == Set::new(
                |i: int| 0 <= i < s.len(),
            ).difference(self.with_invert(false).sortable_positions(s)),
    {
        let inverted = self.with_invert(true).sortable_positions(s);
        let plain = self.with_invert(false).sortable_positions(s);
        assert forall|i: int| inverted.contains(i) == (0 <= i < s.len() && !plain.contains(i)) by {
            if 0 <= i < s.len() {
                assert(self.mask_passes(s[i]));
            }
        }
        assert(inverted =~= Set::new(|i: int| 0 <= i < s.len()).difference(plain));
    }

    /// A pixel that the alpha mask holds back is sortable neither with
    /// `invert` set nor without it.
    pub proof fn lemma_masked_never_sortable(self, p: Pixel)
        requires
            !self.mask_passes(p),
        ensures
            !self.with_invert(true).sortable(p),
            !self.with_invert(false).sortable(p),
    {
    }
}

} // verus!
