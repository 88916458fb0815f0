//! The order that sorting gives one run of pixels, and the sort itself.
//!
//! A heuristic has only 256 values, so the sorted run can be written down
//! directly: the pixels of the first value in the order they had, then those
//! of the second value, and so on. Pixels of equal value keep their order.

use vstd::prelude::*;
use vstd::seq_lib::*;
use crate::heuristic::SortHeuristic;
use crate::pixel::Pixel;

verus! {

/// The place of a pixel's value in the sort order, from 0 to 255: the value
/// itself when sorting upwards, its distance from 255 when sorting downwards.
pub open spec fn rank(heuristic: SortHeuristic, reverse: bool, p: Pixel) -> int {
    if reverse {
        255 - heuristic.value(p)
    } else {
        heuristic.value(p)
    }
}

/// The test "this pixel has rank `k`".
pub open spec fn has_rank(heuristic: SortHeuristic, reverse: bool, k: int) -> spec_fn(Pixel) -> bool {
    |p: Pixel| rank(heuristic, reverse, p) == k
}

/// The pixels of `s` whose rank is below `n`, by rank; pixels of one rank are
/// in the order they have in `s`.
pub open spec fn ranked_below(s: Seq<Pixel>, heuristic: SortHeuristic, reverse: bool, n: nat) -> Seq<Pixel>
    decreases n,
{
    if n == 0 {
        Seq::empty()
    } else {
        ranked_below(s, heuristic, reverse, (n - 1) as nat) + s.filter(
            has_rank(heuristic, reverse, n - 1),
        )
    }
}

/// The run `s` sorted by the heuristic: upwards, or downwards if `reverse`.
pub open spec fn sorted_run(s: Seq<Pixel>, heuristic: SortHeuristic, reverse: bool) -> Seq<Pixel> {
    ranked_below(s, heuristic, reverse, 256)
}

/// Whether the ranks in `s` never fall from left to right.
pub open spec fn in_order(s: Seq<Pixel>, heuristic: SortHeuristic, reverse: bool) -> bool {
    forall|i: int, j: int|
        0 <= i <= j < s.len() ==> rank(heuristic, reverse, s[i]) <= rank(heuristic, reverse, s[j])
}

/// Every rank lies between 0 and 255.
pub proof fn lemma_rank_is_byte(heuristic: SortHeuristic, reverse: bool, p: Pixel)
    ensures
        0 <= rank(heuristic, reverse, p) <= 255,
{
    heuristic.lemma_value_is_byte(p);
}

/// A filter keeps a sequence whose elements all pass it.
proof fn lemma_filter_keeps_all(s: Seq<Pixel>, pred: spec_fn(Pixel) -> bool)
    requires
        forall|i: int| 0 <= i < s.len() ==> pred(#[trigger] s[i]),
    ensures
        s.filter(pred) == s,
    decreases s.len(),
{
    reveal(Seq::filter);
    if s.len() > 0 {
        lemma_filter_keeps_all(s.drop_last(), pred);
        assert(s.drop_last().push(s.last()) =~= s);
    }
}

/// A filter empties a sequence none of whose elements pass it.
proof fn lemma_filter_drops_all(s: Seq<Pixel>, pred: spec_fn(Pixel) -> bool)
    requires
        forall|i: int| 0 <= i < s.len() ==> !pred(#[trigger] s[i]),
    ensures
        s.filter(pred) == Seq::<Pixel>::empty(),
    decreases s.len(),
{
    reveal(Seq::filter);
    if s.len() > 0 {
        lemma_filter_drops_all(s.drop_last(), pred);
    }
}

/// The pixels of one rank, picked out of the pixels of one rank: the same
/// pixels if the two ranks are the same, none otherwise.
proof fn lemma_filter_rank_twice(s: Seq<Pixel>, heuristic: SortHeuristic, reverse: bool, j: int, k: int)
    ensures
        s.filter(has_rank(heuristic, reverse, j)).filter(has_rank(heuristic, reverse, k)) == if j == k {
            s.filter(has_rank(heuristic, reverse, j))
        } else {
            Seq::<Pixel>::empty()
        },
{
    let once = s.filter(has_rank(heuristic, reverse, j));
    assert forall|i: int| 0 <= i < once.len() implies rank(heuristic, reverse, #[trigger] once[i])
        == j by {
        s.lemma_filter_pred(has_rank(heuristic, reverse, j), i);
    }
    if j == k {
        lemma_filter_keeps_all(once, has_rank(heuristic, reverse, k));
    } else {
        lemma_filter_drops_all(once, has_rank(heuristic, reverse, k));
    }
}

/// Sorting does not disturb the pixels of one rank: picked out of the sorted
/// pixels below rank `n`, they are those picked out of `s`, if `k` is below `n`.
proof fn lemma_ranked_below_filter(s: Seq<Pixel>, heuristic: SortHeuristic, reverse: bool, n: nat, k: int)
    ensures
        ranked_below(s, heuristic, reverse, n).filter(has_rank(heuristic, reverse, k)) == if 0 <= k < n {
            s.filter(has_rank(heuristic, reverse, k))
        } else {
            Seq::<Pixel>::empty()
        },
    decreases n,
{
    let pred = has_rank(heuristic, reverse, k);
    if n == 0 {
        lemma_filter_drops_all(Seq::<Pixel>::empty(), pred);
    } else {
        let lower = ranked_below(s, heuristic, reverse, (n - 1) as nat);
        let top = s.filter(has_rank(heuristic, reverse, n - 1));
        lemma_ranked_below_filter(s, heuristic, reverse, (n - 1) as nat, k);
        lemma_filter_rank_twice(s, heuristic, reverse, n - 1, k);
        Seq::filter_distributes_over_add(lower, top, pred);
        assert(lower.filter(pred) + top.filter(pred) =~= if 0 <= k < n {
            s.filter(pred)
        } else {
            Seq::<Pixel>::empty()
        });
    }
}

/// Two sequences whose pixels of each rank are the same have the same pixels
/// below each rank, in the same order.
proof fn lemma_ranked_below_same(s: Seq<Pixel>, t: Seq<Pixel>, heuristic: SortHeuristic, reverse: bool, n: nat)
    requires
        forall|k: int| 0 <= k < n ==> #[trigger] s.filter(has_rank(heuristic, reverse, k)) == t.filter(has_rank(heuristic, reverse, k)),
    ensures
        ranked_below(s, heuristic, reverse, n) == ranked_below(t, heuristic, reverse, n),
    decreases n,
{
    if n > 0 {
        lemma_ranked_below_same(s, t, heuristic, reverse, (n - 1) as nat);
        assert(s.filter(has_rank(heuristic, reverse, n - 1)) == t.filter(has_rank(heuristic, reverse, n - 1)));
    }
}

/// Sorting a run keeps the pixels of equal rank in the order they had.
pub proof fn lemma_sorted_run_stable(s: Seq<Pixel>, heuristic: SortHeuristic, reverse: bool, k: int)
    requires
        0 <= k < 256,
    ensures
        sorted_run(s, heuristic, reverse).filter(has_rank(heuristic, reverse, k)) == s.filter(
            has_rank(heuristic, reverse, k),
        ),
{
    lemma_ranked_below_filter(s, heuristic, reverse, 256, k);
}

/// Sorting a sorted run changes nothing.
pub proof fn lemma_sorted_run_idempotent(s: Seq<Pixel>, heuristic: SortHeuristic, reverse: bool)
    ensures
        sorted_run(sorted_run(s, heuristic, reverse), heuristic, reverse) == sorted_run(s, heuristic, reverse),
{
    let t = sorted_run(s, heuristic, reverse);
    assert forall|k: int| 0 <= k < 256 implies #[trigger] t.filter(has_rank(heuristic, reverse, k))
        == s.filter(has_rank(heuristic, reverse, k)) by {
        lemma_sorted_run_stable(s, heuristic, reverse, k);
    }
    lemma_ranked_below_same(t, s, heuristic, reverse, 256);
}

/// The test "this pixel has a rank below `n`".
spec fn has_rank_below(heuristic: SortHeuristic, reverse: bool, n: int) -> spec_fn(Pixel) -> bool {
    |p: Pixel| rank(heuristic, reverse, p) < n
}

/// The pixels below rank `n` are those below rank `n - 1` and those of rank
/// `n - 1`.
proof fn lemma_split_top_rank(s: Seq<Pixel>, heuristic: SortHeuristic, reverse: bool, n: int)
    ensures
        s.filter(has_rank_below(heuristic, reverse, n)).to_multiset() == s.filter(
            has_rank_below(heuristic, reverse, n - 1),
        ).to_multiset().add(s.filter(has_rank(heuristic, reverse, n - 1)).to_multiset()),
    decreases s.len(),
{
    let all = has_rank_below(heuristic, reverse, n);
    let lower = has_rank_below(heuristic, reverse, n - 1);
    let top = has_rank(heuristic, reverse, n - 1);
    if s.len() == 0 {
        lemma_filter_drops_all(s, all);
        lemma_filter_drops_all(s, lower);
        lemma_filter_drops_all(s, top);
        let none = Seq::<Pixel>::empty();
        lemma_multiset_commutative(none, none);
        assert(none + none =~= none);
    } else {
        let rest = s.drop_last();
        let p = s.last();
        lemma_split_top_rank(rest, heuristic, reverse, n);
        assert(rest.push(p) =~= s);
        rest.lemma_filter_push(p, all);
        rest.lemma_filter_push(p, lower);
        rest.lemma_filter_push(p, top);
        to_multiset_build(rest.filter(all), p);
        to_multiset_build(rest.filter(lower), p);
        to_multiset_build(rest.filter(top), p);
        assert(s.filter(all).to_multiset() =~= s.filter(lower).to_multiset().add(
            s.filter(top).to_multiset(),
        ));
    }
}

/// The sorted pixels below rank `n` are, but for their order, the pixels of
/// `s` below rank `n`.
proof fn lemma_ranked_below_multiset(s: Seq<Pixel>, heuristic: SortHeuristic, reverse: bool, n: nat)
    ensures
        ranked_below(s, heuristic, reverse, n).to_multiset() == s.filter(
            has_rank_below(heuristic, reverse, n as int),
        ).to_multiset(),
    decreases n,
{
    if n == 0 {
        assert forall|i: int| 0 <= i < s.len() implies !has_rank_below(heuristic, reverse, 0)(
            #[trigger] s[i],
        ) by {
            lemma_rank_is_byte(heuristic, reverse, s[i]);
        }
        lemma_filter_drops_all(s, has_rank_below(heuristic, reverse, 0));
    } else {
        let lower = ranked_below(s, heuristic, reverse, (n - 1) as nat);
        let top = s.filter(has_rank(heuristic, reverse, n - 1));
        lemma_ranked_below_multiset(s, heuristic, reverse, (n - 1) as nat);
        lemma_multiset_commutative(lower, top);
        lemma_split_top_rank(s, heuristic, reverse, n as int);
    }
}

/// Sorting a run keeps its pixels, each as often as it occurs.
pub proof fn lemma_sorted_run_multiset(s: Seq<Pixel>, heuristic: SortHeuristic, reverse: bool)
    ensures
        sorted_run(s, heuristic, reverse).to_multiset() == s.to_multiset(),
        sorted_run(s, heuristic, reverse).len() == s.len(),
{
    lemma_ranked_below_multiset(s, heuristic, reverse, 256);
    assert forall|i: int| 0 <= i < s.len() implies has_rank_below(heuristic, reverse, 256)(
        #[trigger] s[i],
    ) by {
        lemma_rank_is_byte(heuristic, reverse, s[i]);
    }
    lemma_filter_keeps_all(s, has_rank_below(heuristic, reverse, 256));
    to_multiset_len(s);
    to_multiset_len(sorted_run(s, heuristic, reverse));
}

/// The sorted pixels below rank `n` are in order, and all below rank `n`.
proof fn lemma_ranked_below_in_order(s: Seq<Pixel>, heuristic: SortHeuristic, reverse: bool, n: nat)
    ensures
        in_order(ranked_below(s, heuristic, reverse, n), heuristic, reverse),
        forall|i: int|
            0 <= i < ranked_below(s, heuristic, reverse, n).len() ==> rank(
                heuristic,
                reverse,
                #[trigger] ranked_below(s, heuristic, reverse, n)[i],
            ) < n,
    decreases n,
{
    if n > 0 {
        let lower = ranked_below(s, heuristic, reverse, (n - 1) as nat);
        let top = s.filter(has_rank(heuristic, reverse, n - 1));
        lemma_ranked_below_in_order(s, heuristic, reverse, (n - 1) as nat);
        assert forall|i: int| 0 <= i < top.len() implies rank(heuristic, reverse, #[trigger] top[i])
            == n - 1 by {
            s.lemma_filter_pred(has_rank(heuristic, reverse, n - 1), i);
        }
        let whole = lower + top;
        assert forall|i: int| 0 <= i < whole.len() implies rank(heuristic, reverse, #[trigger] whole[i])
            < n by {
            if i < lower.len() {
                assert(whole[i] == lower[i]);
            } else {
                assert(whole[i] == top[i - lower.len()]);
            }
        }
        assert forall|i: int, j: int| 0 <= i <= j < whole.len() implies rank(
            heuristic,
            reverse,
            whole[i],
        ) <= rank(heuristic, reverse, whole[j]) by {
            if j < lower.len() {
                assert(whole[i] == lower[i] && whole[j] == lower[j]);
            } else if i < lower.len() {
                assert(whole[i] == lower[i] && whole[j] == top[j - lower.len()]);
            } else {
                assert(whole[i] == top[i - lower.len()] && whole[j] == top[j - lower.len()]);
            }
        }
    }
}

/// A sorted run is in order.
pub proof fn lemma_sorted_run_in_order(s: Seq<Pixel>, heuristic: SortHeuristic, reverse: bool)
    ensures
        in_order(sorted_run(s, heuristic, reverse), heuristic, reverse),
{
    lemma_ranked_below_in_order(s, heuristic, reverse, 256);
}

/// What sorting a run puts at any place was somewhere in the run.
pub proof fn lemma_sorted_run_contains(s: Seq<Pixel>, heuristic: SortHeuristic, reverse: bool, i: int)
    requires
        0 <= i < s.len(),
    ensures
        s.contains(sorted_run(s, heuristic, reverse)[i]),
{
    let t = sorted_run(s, heuristic, reverse);
    lemma_sorted_run_multiset(s, heuristic, reverse);
    assert(t.contains(t[i]));
    to_multiset_contains(t, t[i]);
    to_multiset_contains(s, t[i]);
}

/// A run of at most one pixel is sorted as it stands.
pub proof fn lemma_sorted_run_short(s: Seq<Pixel>, heuristic: SortHeuristic, reverse: bool)
    requires
        s.len() <= 1,
    ensures
        sorted_run(s, heuristic, reverse) == s,
{
    let t = sorted_run(s, heuristic, reverse);
    lemma_sorted_run_multiset(s, heuristic, reverse);
    if s.len() == 1 {
        lemma_sorted_run_contains(s, heuristic, reverse, 0);
    }
    assert(t =~= s);
}

/// The sorted pixels below a rank are among the sorted pixels below any
/// higher rank, so there are no more of them.
proof fn lemma_ranked_below_len(s: Seq<Pixel>, heuristic: SortHeuristic, reverse: bool, n: nat, m: nat)
    requires
        n <= m,
    ensures
        ranked_below(s, heuristic, reverse, n).len() <= ranked_below(s, heuristic, reverse, m).len(),
    decreases m,
{
    if n < m {
        lemma_ranked_below_len(s, heuristic, reverse, n, (m - 1) as nat);
    }
}

/// Replacing a span of a sequence by the same pixels in another order keeps
/// the pixels of the whole sequence.
pub proof fn lemma_reordered_span_multiset(s: Seq<Pixel>, start: int, end: int, t: Seq<Pixel>)
    requires
        0 <= start <= end <= s.len(),
        t.to_multiset() == s.subrange(start, end).to_multiset(),
    ensures
        (s.take(start) + t + s.skip(end)).to_multiset() == s.to_multiset(),
{
    let head = s.take(start);
    let span = s.subrange(start, end);
    let tail = s.skip(end);
    assert(head + span + tail =~= s);
    lemma_multiset_commutative(head + t, tail);
    lemma_multiset_commutative(head, t);
    lemma_multiset_commutative(head + span, tail);
    lemma_multiset_commutative(head, span);
}

/// The rank of a pixel.
fn rank_of(heuristic: SortHeuristic, reverse: bool, pixel: &Pixel) -> (k: u8)
    ensures
        k == rank(heuristic, reverse, *pixel),
{
    let v = heuristic.func(pixel);
    if reverse {
        255 - v
    } else {
        v
    }
}

/// One empty bucket for each rank.
fn empty_buckets() -> (buckets: Vec<Vec<Pixel>>)
    ensures
        buckets@.len() == 256,
        forall|k: int| 0 <= k < 256 ==> (#[trigger] buckets@[k])@ == Seq::<Pixel>::empty(),
{
    let mut buckets: Vec<Vec<Pixel>> = Vec::new();
    let mut k: usize = 0;
    while k < 256
        invariant
            k <= 256,
            buckets@.len() == k,
            forall|j: int| 0 <= j < k ==> (#[trigger] buckets@[j])@ == Seq::<Pixel>::empty(),
        decreases 256 - k,
    {
        buckets.push(Vec::new());
        k += 1;
    }
    buckets
}

/// Puts each pixel of `row` from `start` up to `end` into the bucket of its
/// rank, in the order in which they stand in the row.
fn fill_buckets(row: &[Pixel], start: usize, end: usize, heuristic: SortHeuristic, reverse: bool) -> (buckets: Vec<Vec<Pixel>>)
    requires
        start <= end <= row@.len(),
    ensures
        buckets@.len() == 256,
        forall|k: int|
            0 <= k < 256 ==> (#[trigger] buckets@[k])@ == row@.subrange(start as int, end as int).filter(
                has_rank(heuristic, reverse, k),
            ),
{
    let ghost run = row@.subrange(start as int, end as int);
    let mut buckets = empty_buckets();
    let mut i: usize = start;
    while i < end
        invariant
            start <= i <= end <= row@.len(),
            run == row@.subrange(start as int, end as int),
            buckets@.len() == 256,
            forall|k: int|
                0 <= k < 256 ==> (#[trigger] buckets@[k])@ == run.take(i - start).filter(
                    has_rank(heuristic, reverse, k),
                ),
        decreases end - i,
    {
        let p = row[i];
        let slot = rank_of(heuristic, reverse, &p) as usize;
        let ghost filled = buckets@;
        buckets[slot].push(p);
        proof {
            let done = run.take(i - start);
            assert(run.take(i + 1 - start) =~= done.push(p));
            assert forall|k: int| 0 <= k < 256 implies (#[trigger] buckets@[k])@ == run.take(
                i + 1 - start,
            ).filter(has_rank(heuristic, reverse, k)) by {
                done.lemma_filter_push(p, has_rank(heuristic, reverse, k));
                assert(filled[k]@ == done.filter(has_rank(heuristic, reverse, k)));
            }
        }
        i += 1;
    }
    assert(run.take(end - start) =~= run);
    buckets
}

/// Writes `pixels` over the pixels of `row` from position `at` on.
fn write_at(row: &mut [Pixel], at: usize, pixels: &Vec<Pixel>)
    requires
        at + pixels@.len() <= old(row)@.len(),
    ensures
        final(row)@ == old(row)@.take(at as int) + pixels@ + old(row)@.skip(at + pixels@.len()),
{
    let ghost before = row@;
    let len = row.len();
    let mut j: usize = 0;
    assert(row@ =~= before.take(at as int) + pixels@.take(0) + before.skip(at as int));
    while j < pixels.len()
        invariant
            j <= pixels@.len(),
            at + pixels@.len() <= len,
            len == before.len(),
            row@.len() == len,
            row@ == before.take(at as int) + pixels@.take(j as int) + before.skip(at + j),
        decreases pixels@.len() - j,
    {
        row[at + j] = pixels[j];
        assert(row@ =~= before.take(at as int) + pixels@.take(j + 1) + before.skip(at + j + 1));
        j += 1;
    }
    assert(pixels@.take(j as int) =~= pixels@);
}

/// Replacing a span of a row by its pixels in sorted order keeps the pixels
/// of the row.
proof fn lemma_sorted_span_multiset(s: Seq<Pixel>, start: int, end: int, heuristic: SortHeuristic, reverse: bool)
    requires
        0 <= start <= end <= s.len(),
    ensures
        (s.take(start) + sorted_run(s.subrange(start, end), heuristic, reverse) + s.skip(
            end,
        )).to_multiset() == s.to_multiset(),
{
    let run = s.subrange(start, end);
    lemma_sorted_run_multiset(run, heuristic, reverse);
    lemma_reordered_span_multiset(s, start, end, sorted_run(run, heuristic, reverse));
}

/// Sorts the pixels of `row` from `start` up to, not including, `end` by the
/// heuristic: upwards, or downwards if `reverse`. Pixels of equal value keep
/// their order; the rest of the row is not touched.
pub fn sort_run(row: &mut [Pixel], start: usize, end: usize, heuristic: SortHeuristic, reverse: bool)
    requires
        start <= end <= old(row)@.len(),
    ensures
        final(row)@ == old(row)@.take(start as int) + sorted_run(
            old(row)@.subrange(start as int, end as int),
            heuristic,
            reverse,
        ) + old(row)@.skip(end as int),
        final(row)@.len() == old(row)@.len(),
        final(row)@.to_multiset() == old(row)@.to_multiset(),
{
    let ghost before = row@;
    let ghost run = before.subrange(start as int, end as int);
    proof {
        lemma_sorted_span_multiset(before, start as int, end as int, heuristic, reverse);
        lemma_sorted_run_multiset(run, heuristic, reverse);
    }
    if end - start < 2 {
        proof {
            lemma_sorted_run_short(run, heuristic, reverse);
            assert(before.take(start as int) + run + before.skip(end as int) =~= before);
        }
        return ;
    }
    let buckets = fill_buckets(row, start, end, heuristic, reverse);
    assert(row@ =~= before.take(start as int) + Seq::<Pixel>::empty() + before.skip(start as int));
    let mut out: usize = start;
    let mut k: usize = 0;
    while k < 256
        invariant
            k <= 256,
            start <= out <= end <= before.len(),
            run == before.subrange(start as int, end as int),
            buckets@.len() == 256,
            forall|j: int|
                0 <= j < 256 ==> (#[trigger] buckets@[j])@ == run.filter(has_rank(heuristic, reverse, j)),
            out == start + ranked_below(run, heuristic, reverse, k as nat).len(),
            sorted_run(run, heuristic, reverse).len() == run.len(),
            row@.len() == before.len(),
            row@ == before.take(start as int) + ranked_below(run, heuristic, reverse, k as nat)
                + before.skip(out as int),
        decreases 256 - k,
    {
        let ghost lower = ranked_below(run, heuristic, reverse, k as nat);
        let ghost upper = ranked_below(run, heuristic, reverse, (k + 1) as nat);
        let ghost bucket = buckets@[k as int]@;
        proof {
            lemma_ranked_below_len(run, heuristic, reverse, (k + 1) as nat, 256);
            assert(upper == lower + bucket);
        }
        write_at(row, out, &buckets[k]);
        assert(row@ =~= before.take(start as int) + upper + before.skip(out + bucket.len()));
        out += buckets[k].len();
        k += 1;
    }
    assert(before.skip(out as int) =~= before.skip(end as int));
}

} // verus!
