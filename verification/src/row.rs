//! Sorting one row: the row falls into runs of pixels that take part in
//! sorting and runs of pixels that do not; each run of the first sort is
//! sorted where it stands, and the others are left alone.

use vstd::prelude::*;
use crate::heuristic::SortHeuristic;
use crate::options::SortOptions;
use crate::pixel::Pixel;
use crate::run::{lemma_sorted_run_multiset, sort_run, sorted_run};

verus! {

impl SortOptions {
    /// Where the run of sortable pixels that ends just before position `i`
    /// starts: `i` itself if the pixel before `i` is not sortable.
    pub open spec fn run_start(self, s: Seq<Pixel>, i: int) -> int
        decreases i,
    {
        if 0 < i <= s.len() && self.sortable(s[i - 1]) {
            self.run_start(s, i - 1)
        } else {
            i
        }
    }

    /// Where the run of sortable pixels that starts at position `i` ends: `i`
    /// itself if the pixel at `i` is not sortable.
    pub open spec fn run_end(self, s: Seq<Pixel>, i: int) -> int
        decreases s.len() - i,
    {
        if 0 <= i < s.len() && self.sortable(s[i]) {
            self.run_end(s, i + 1)
        } else {
            i
        }
    }

    /// Whether the positions from `a` up to, not including, `b` are a maximal
    /// sortable run of `s`: all of them hold sortable pixels, and the run can
    /// be extended at neither end.
    pub open spec fn is_run(self, s: Seq<Pixel>, a: int, b: int) -> bool {
        &&& 0 <= a < b <= s.len()
        &&& forall|i: int| a <= i < b ==> self.sortable(#[trigger] s[i])
        &&& (a == 0 || !self.sortable(s[a - 1]))
        &&& (b == s.len() || !self.sortable(s[b]))
    }

    /// The pixel that sorting the row `s` puts at position `i`: the pixel that
    /// is there, if it is not sortable; otherwise the pixel that sorting its
    /// run puts there.
    pub open spec fn sorted_pixel(self, s: Seq<Pixel>, i: int) -> Pixel {
        if self.sortable(s[i]) {
            let a = self.run_start(s, i);
            let b = self.run_end(s, i);
            sorted_run(s.subrange(a, b), self.heuristic, self.reverse)[i - a]
        } else {
            s[i]
        }
    }

    /// The row `s` after sorting.
    pub open spec fn sorted_row(self, s: Seq<Pixel>) -> Seq<Pixel> {
        Seq::new(s.len(), |i: int| self.sorted_pixel(s, i))
    }

    /// The run that a sortable position lies in starts at `run_start` and
    /// ends at `run_end` of that position.
    pub proof fn lemma_run_bounds(self, s: Seq<Pixel>, a: int, b: int, i: int)
        requires
            0 <= a <= i <= b <= s.len(),
            forall|j: int| a <= j < b ==> self.sortable(#[trigger] s[j]),
            a == 0 || !self.sortable(s[a - 1]),
            b == s.len() || !self.sortable(s[b]),
        ensures
            self.run_start(s, i) == a,
            self.run_end(s, i) == b,
    {
        self.lemma_run_start(s, a, i);
        self.lemma_run_end(s, b, i);
    }

    proof fn lemma_run_start(self, s: Seq<Pixel>, a: int, i: int)
        requires
            0 <= a <= i <= s.len(),
            forall|j: int| a <= j < i ==> self.sortable(#[trigger] s[j]),
            a == 0 || !self.sortable(s[a - 1]),
        ensures
            self.run_start(s, i) == a,
        decreases i - a,
    {
        if a < i {
            assert(self.sortable(s[i - 1]));
            self.lemma_run_start(s, a, i - 1);
        }
    }

    proof fn lemma_run_end(self, s: Seq<Pixel>, b: int, i: int)
        requires
            0 <= i <= b <= s.len(),
            forall|j: int| i <= j < b ==> self.sortable(#[trigger] s[j]),
            b == s.len() || !self.sortable(s[b]),
        ensures
            self.run_end(s, i) == b,
        decreases b - i,
    {
        if i < b {
            assert(self.sortable(s[i]));
            self.lemma_run_end(s, b, i + 1);
        }
    }
}

/// One step of sorting a row, as seen from the row `before` sorting began:
/// `entered` is the row when the step begins, at position `pos`, and `left` is
/// the row after the run from `pos` to `end` has been sorted. The step fills
/// the positions from `pos` up to `next` with what sorting the whole row puts
/// there, and leaves the others as they are.
proof fn lemma_step(
    options: SortOptions,
    before: Seq<Pixel>,
    entered: Seq<Pixel>,
    left: Seq<Pixel>,
    pos: int,
    end: int,
    next: int,
)
    requires
        0 <= pos <= end <= next <= before.len(),
        entered.len() == before.len(),
        pos == 0 || !options.sortable(before[pos - 1]),
        forall|i: int| pos <= i < before.len() ==> entered[i] == before[i],
        forall|i: int| pos <= i < end ==> options.sortable(#[trigger] entered[i]),
        end == before.len() || !options.sortable(entered[end]),
        left == entered.take(pos) + sorted_run(
            entered.subrange(pos, end),
            options.heuristic,
            options.reverse,
        ) + entered.skip(end),
        forall|i: int| end <= i < next ==> !options.sortable(#[trigger] left[i]),
    ensures
        left.len() == before.len(),
        forall|i: int| 0 <= i < pos ==> left[i] == entered[i],
        forall|i: int| pos <= i < next ==> left[i] == options.sorted_pixel(before, i),
        forall|i: int| next <= i < before.len() ==> left[i] == before[i],
{
    let run = before.subrange(pos, end);
    let sorted = sorted_run(run, options.heuristic, options.reverse);
    assert(entered.subrange(pos, end) =~= run);
    lemma_sorted_run_multiset(run, options.heuristic, options.reverse);
    assert forall|i: int| pos <= i < next implies left[i] == options.sorted_pixel(before, i) by {
        if i < end {
            assert(left[i] == sorted[i - pos]);
            assert forall|j: int| pos <= j < end implies options.sortable(#[trigger] before[j]) by {
                assert(options.sortable(entered[j]));
            }
            options.lemma_run_bounds(before, pos, end, i);
        } else {
            assert(left[i] == entered[i]);
            assert(!options.sortable(left[i]));
        }
    }
}

/// Counts the pixels of `row` from position `start` on that are sortable, if
/// `sortable` is set, or that are not, if it is not set, up to the first pixel
/// of the other sort or the end of the row.
pub fn run_length(row: &[Pixel], start: usize, options: &SortOptions, sortable: bool) -> (n: usize)
    requires
        start <= row@.len(),
    ensures
        start + n <= row@.len(),
        forall|i: int| start <= i < start + n ==> options.sortable(#[trigger] row@[i]) == sortable,
        start + n == row@.len() || options.sortable(row@[start + n]) != sortable,
{
    let mut end: usize = start;
    while end < row.len() && options.is_sortable(&row[end]) == sortable
        invariant
            start <= end <= row@.len(),
            forall|i: int| start <= i < end ==> options.sortable(#[trigger] row@[i]) == sortable,
        decreases row@.len() - end,
    {
        end += 1;
    }
    end - start
}

/// Sorts a row in place. From left to right, each maximal run of sortable
/// pixels is sorted by the heuristic, upwards, or downwards if `reverse` is
/// set, and pixels of equal value keep their order. A pixel is sortable if
/// its heuristic value lies from `minimum` to `maximum` (or, with `invert`,
/// does not), unless `mask_alpha` is set and its alpha is 0. Pixels that are
/// not sortable stay where they are.
pub fn sort_row(
    row: &mut [Pixel],
    heuristic: SortHeuristic,
    minimum: u8,
    maximum: u8,
    invert: bool,
    reverse: bool,
    mask_alpha: bool,
)
    ensures
        final(row)@ == (SortOptions {
            heuristic,
            minimum,
            maximum,
            invert,
            reverse,
            mask_alpha,
        }).sorted_row(old(row)@),
        final(row)@.to_multiset() == old(row)@.to_multiset(),
{
    let options = SortOptions { heuristic, minimum, maximum, invert, reverse, mask_alpha };
    let ghost before = row@;
    let len = row.len();
    let mut pos: usize = 0;
    while pos < len
        invariant
            pos <= len,
            len == before.len(),
            row@.len() == len,
            options.heuristic == heuristic,
            options.reverse == reverse,
            pos == 0 || pos == len || !options.sortable(before[pos - 1]),
            forall|i: int| pos <= i < len ==> row@[i] == before[i],
            forall|i: int| 0 <= i < pos ==> row@[i] == options.sorted_pixel(before, i),
            row@.to_multiset() == before.to_multiset(),
        decreases len - pos,
    {
        let ghost entered = row@;
        let numel = run_length(row, pos, &options, true);
        let end = pos + numel;
        sort_run(row, pos, end, heuristic, reverse);
        let ghost left = row@;
        let skipped = run_length(row, end, &options, false);
        let next = end + skipped;
        proof {
            lemma_step(options, before, entered, left, pos as int, end as int, next as int);
            if next < len {
                assert(left[next as int] == before[next as int]);
                if skipped > 0 {
                    assert(!options.sortable(left[next - 1]));
                    assert(left[next - 1] == options.sorted_pixel(before, next - 1));
                } else {
                    assert(entered[end as int] == before[end as int]);
                }
            }
        }
        pos = next;
    }
    assert(row@ =~= options.sorted_row(before));
}

} // verus!
