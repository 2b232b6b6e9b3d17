//! What holds of every conversion: proofs about the paths that the engine
//! finds and the intervals that it hands out.

use crate::conversion::chewing::{
    agrees, all_intervals, best_path, compatible, convert_next_spec, convert_spec,
    crosses_break, ending_at, first_container, glue, glue_all, intervals_before,
    is_first_container, is_slot, lemma_first_container_exists, lemma_first_container_is,
    lemma_slot_exists, lemma_sort_keeps_len, lemma_trim_keeps_one, not_contained, path_contains,
    contains_from, covers, path_score, paths_from, paths_via, prepend_all, ranked_paths, relax,
    relax_all, row_intervals, slot_of, sort_by_score, sorted_by_end, span_phrase, syllables_of,
    text_of, to_interval, to_intervals, trim_all, PossibleIntervalView,
};
use crate::conversion::{interval_views, Break, Composition, Glue, IntervalView};
use crate::dictionary::Dictionary;
use crate::zhuyin::Syllable;
use vstd::prelude::*;

verus! {

/// Whether an interval is a span of the buffer with what the engine
/// renders that span as.
pub open spec fn is_rendering<D: Dictionary>(
    dict: &D,
    comp: &Composition,
    interval: PossibleIntervalView,
) -> bool {
    &&& interval.start <= interval.end <= comp.buffer@.len()
    &&& span_phrase(dict, comp, interval.start as int, interval.end as int) == Some(
        interval.phrase,
    )
}

/// Whether every interval of the path is a rendering of its span.
pub open spec fn all_renderings<D: Dictionary>(
    dict: &D,
    comp: &Composition,
    path: Seq<PossibleIntervalView>,
) -> bool {
    forall|i: int| 0 <= i < path.len() ==> is_rendering(dict, comp, #[trigger] path[i])
}

/// Whether the intervals follow one another without a gap from `from` to
/// `to`, each of them spanning at least one position.
pub open spec fn chained(intervals: Seq<IntervalView>, from: int, to: int) -> bool {
    if intervals.len() == 0 {
        from == to
    } else {
        &&& intervals[0].start == from
        &&& intervals.last().end == to
        &&& forall|i: int|
            0 <= i < intervals.len() ==> (#[trigger] intervals[i]).start < intervals[i].end
        &&& forall|i: int|
            0 <= i < intervals.len() - 1 ==> (#[trigger] intervals[i]).end == intervals[i
                + 1].start
    }
}

/// Every interval that starts at `begin` is a rendering of its span.
pub proof fn lemma_row_renderings<D: Dictionary>(
    dict: &D,
    comp: &Composition,
    begin: int,
    end: int,
)
    requires
        comp.wf(),
        0 <= begin <= comp.buffer@.len(),
        end <= comp.buffer@.len() + 1,
    ensures
        all_renderings(dict, comp, row_intervals(dict, comp, begin, end)),
    decreases end - begin,
{
    if end > begin {
        lemma_row_renderings(dict, comp, begin, end - 1);
    }
}

/// Every interval that the engine enumerates is a rendering of its span.
pub proof fn lemma_intervals_are_renderings<D: Dictionary>(
    dict: &D,
    comp: &Composition,
    begin: int,
)
    requires
        comp.wf(),
        begin <= comp.buffer@.len() + 1,
    ensures
        all_renderings(dict, comp, intervals_before(dict, comp, begin)),
    decreases begin,
{
    if begin > 0 {
        lemma_intervals_are_renderings(dict, comp, begin - 1);
        lemma_row_renderings(dict, comp, begin - 1, comp.buffer@.len() as int + 1);
    }
}

/// The intervals that end at a position are taken from the given ones.
pub proof fn lemma_ending_at_renderings<D: Dictionary>(
    dict: &D,
    comp: &Composition,
    intervals: Seq<PossibleIntervalView>,
    end: int,
)
    requires
        all_renderings(dict, comp, intervals),
    ensures
        all_renderings(dict, comp, ending_at(intervals, end)),
    decreases intervals.len(),
{
    if intervals.len() > 0 {
        assert(all_renderings(dict, comp, intervals.drop_last())) by {
            assert forall|i: int| 0 <= i < intervals.drop_last().len() implies is_rendering(
                dict,
                comp,
                #[trigger] intervals.drop_last()[i],
            ) by {
                assert(intervals.drop_last()[i] == intervals[i]);
            }
        }
        lemma_ending_at_renderings(dict, comp, intervals.drop_last(), end);
    }
}

/// The intervals by their end are taken from the given ones.
pub proof fn lemma_sorted_renderings<D: Dictionary>(
    dict: &D,
    comp: &Composition,
    intervals: Seq<PossibleIntervalView>,
    ends: int,
)
    requires
        all_renderings(dict, comp, intervals),
    ensures
        all_renderings(dict, comp, sorted_by_end(intervals, ends)),
    decreases ends,
{
    if ends > 0 {
        lemma_sorted_renderings(dict, comp, intervals, ends - 1);
        lemma_ending_at_renderings(dict, comp, intervals, ends - 1);
    }
}

/// Whether the search holds a path of renderings for every position.
pub open spec fn table_of_renderings<D: Dictionary>(
    dict: &D,
    comp: &Composition,
    best: Seq<Seq<PossibleIntervalView>>,
) -> bool {
    &&& best.len() == comp.buffer@.len() + 1
    &&& forall|k: int| 0 <= k < best.len() ==> all_renderings(dict, comp, #[trigger] best[k])
}

/// The search keeps to paths of renderings.
pub proof fn lemma_relax_all_renderings<D: Dictionary>(
    dict: &D,
    comp: &Composition,
    best: Seq<Seq<PossibleIntervalView>>,
    intervals: Seq<PossibleIntervalView>,
)
    requires
        table_of_renderings(dict, comp, best),
        all_renderings(dict, comp, intervals),
    ensures
        table_of_renderings(dict, comp, relax_all(best, intervals)),
    decreases intervals.len(),
{
    if intervals.len() > 0 {
        assert(all_renderings(dict, comp, intervals.drop_last())) by {
            assert forall|i: int| 0 <= i < intervals.drop_last().len() implies is_rendering(
                dict,
                comp,
                #[trigger] intervals.drop_last()[i],
            ) by {
                assert(intervals.drop_last()[i] == intervals[i]);
            }
        }
        lemma_relax_all_renderings(dict, comp, best, intervals.drop_last());
        let before = relax_all(best, intervals.drop_last());
        let interval = intervals.last();
        assert(is_rendering(dict, comp, interval));
        let candidate = before[interval.start as int].push(interval);
        assert(all_renderings(dict, comp, candidate)) by {
            assert forall|i: int| 0 <= i < candidate.len() implies is_rendering(
                dict,
                comp,
                #[trigger] candidate[i],
            ) by {
                if i < candidate.len() - 1 {
                    assert(candidate[i] == before[interval.start as int][i]);
                }
            }
        }
    }
}

/// The best path holds renderings only.
pub proof fn lemma_best_path_renderings<D: Dictionary>(dict: &D, comp: &Composition)
    requires
        comp.wf(),
    ensures
        all_renderings(
            dict,
            comp,
            best_path(comp.buffer@.len() as int, all_intervals(dict, comp)),
        ),
{
    let len = comp.buffer@.len() as int;
    lemma_intervals_are_renderings(dict, comp, len + 1);
    lemma_sorted_renderings(dict, comp, all_intervals(dict, comp), len + 1);
    let empty = Seq::new((len + 1) as nat, |i: int| Seq::<PossibleIntervalView>::empty());
    lemma_relax_all_renderings(dict, comp, empty, sorted_by_end(all_intervals(dict, comp), len + 1));
}

/// Whether a path is a segmentation of the buffer from `from` to `to` in
/// renderings.
pub open spec fn is_segmentation<D: Dictionary>(
    dict: &D,
    comp: &Composition,
    path: Seq<PossibleIntervalView>,
    from: int,
    to: int,
) -> bool {
    all_renderings(dict, comp, path) && chained(to_intervals(path), from, to)
}

/// Every path that the engine enumerates from `start` to `target` is a
/// segmentation of that part of the buffer.
pub proof fn lemma_paths_from_are_segmentations<D: Dictionary>(
    dict: &D,
    comp: &Composition,
    start: int,
    target: int,
)
    requires
        comp.wf(),
        0 <= start <= target <= comp.buffer@.len(),
    ensures
        forall|i: int|
            0 <= i < paths_from(dict, comp, start, target).len() ==> is_segmentation(
                dict,
                comp,
                #[trigger] paths_from(dict, comp, start, target)[i],
                start,
                target,
            ),
    decreases target - start, target - start + 2,
{
    let paths = paths_from(dict, comp, start, target);
    if start >= target {
        assert(paths == seq![Seq::<PossibleIntervalView>::empty()]);
        assert forall|i: int| 0 <= i < paths.len() implies is_segmentation(
            dict,
            comp,
            #[trigger] paths[i],
            start,
            target,
        ) by {
            assert(paths[i] == Seq::<PossibleIntervalView>::empty());
            assert(to_intervals(paths[i]).len() == 0);
        }
    } else {
        lemma_paths_via_are_segmentations(dict, comp, start, target, target + 1);
        assert(paths == paths_via(dict, comp, start, target, target + 1));
    }
}

/// The same, of the paths whose first segment ends before `ends`.
pub proof fn lemma_paths_via_are_segmentations<D: Dictionary>(
    dict: &D,
    comp: &Composition,
    start: int,
    target: int,
    ends: int,
)
    requires
        comp.wf(),
        0 <= start < target <= comp.buffer@.len(),
    ensures
        forall|i: int|
            0 <= i < paths_via(dict, comp, start, target, ends).len() ==> is_segmentation(
                dict,
                comp,
                #[trigger] paths_via(dict, comp, start, target, ends)[i],
                start,
                target,
            ),
    decreases target - start, ends - start,
{
    if ends <= start + 1 || ends > target + 1 {
    } else {
        lemma_paths_via_are_segmentations(dict, comp, start, target, ends - 1);
        let before = paths_via(dict, comp, start, target, ends - 1);
        match span_phrase(dict, comp, start, ends - 1) {
            Some(phrase) => {
                let first = PossibleIntervalView {
                    start: start as usize,
                    end: (ends - 1) as usize,
                    phrase,
                };
                lemma_paths_from_are_segmentations(dict, comp, ends - 1, target);
                let tails = paths_from(dict, comp, ends - 1, target);
                let all = paths_via(dict, comp, start, target, ends);
                assert(all == before + prepend_all(first, tails));
                assert forall|i: int| 0 <= i < all.len() implies is_segmentation(
                    dict,
                    comp,
                    #[trigger] all[i],
                    start,
                    target,
                ) by {
                    if i < before.len() {
                        assert(all[i] == before[i]);
                    } else {
                        let tail = tails[i - before.len()];
                        let path = seq![first] + tail;
                        assert(all[i] == path);
                        assert(is_segmentation(dict, comp, tail, ends - 1, target));
                        assert forall|k: int| 0 <= k < path.len() implies is_rendering(
                            dict,
                            comp,
                            #[trigger] path[k],
                        ) by {
                            if k > 0 {
                                assert(path[k] == tail[k - 1]);
                            }
                        }
                        let chain = to_intervals(path);
                        let rest = to_intervals(tail);
                        assert(chain[0] == to_interval(first));
                        assert forall|k: int| 0 < k < chain.len() implies chain[k] == rest[k
                            - 1] by {
                            assert(path[k] == tail[k - 1]);
                        }
                        if tail.len() > 0 {
                            assert(chain.last() == rest.last());
                            assert forall|k: int| 0 <= k < chain.len() - 1 implies (
                            #[trigger] chain[k]).end == chain[k + 1].start by {
                                if k > 0 {
                                    assert(chain[k] == rest[k - 1]);
                                    assert(chain[k + 1] == rest[k]);
                                } else {
                                    assert(chain[1] == rest[0]);
                                }
                            }
                            assert forall|k: int| 0 <= k < chain.len() implies (
                            #[trigger] chain[k]).start < chain[k].end by {
                                if k > 0 {
                                    assert(chain[k] == rest[k - 1]);
                                }
                            }
                        }
                    }
                }
            },
            None => {},
        }
    }
}

/// Whether every path of `some` is one of the paths of `all`.
pub open spec fn taken_from(
    some: Seq<Seq<PossibleIntervalView>>,
    all: Seq<Seq<PossibleIntervalView>>,
) -> bool {
    forall|i: int| 0 <= i < some.len() ==> all.contains(#[trigger] some[i])
}

/// The paths that a candidate does not contain are taken from the paths.
pub proof fn lemma_not_contained_taken(
    paths: Seq<Seq<PossibleIntervalView>>,
    candidate: Seq<PossibleIntervalView>,
)
    ensures
        taken_from(not_contained(paths, candidate), paths),
    decreases paths.len(),
{
    if paths.len() > 0 {
        lemma_not_contained_taken(paths.drop_last(), candidate);
        let before = not_contained(paths.drop_last(), candidate);
        let out = not_contained(paths, candidate);
        assert forall|i: int| 0 <= i < out.len() implies paths.contains(#[trigger] out[i]) by {
            if i < before.len() {
                assert(out[i] == before[i]);
                assert(paths.drop_last().contains(before[i]));
                let j = choose|j: int|
                    0 <= j < paths.drop_last().len() && paths.drop_last()[j] == before[i];
                assert(paths[j] == before[i]);
            } else {
                assert(out[i] == paths[paths.len() - 1]);
            }
        }
    }
}

/// Trimming hands out paths that it was given, and no others.
pub proof fn lemma_trim_all_taken(paths: Seq<Seq<PossibleIntervalView>>)
    ensures
        taken_from(trim_all(paths), paths),
    decreases paths.len(),
{
    if paths.len() > 0 {
        lemma_trim_all_taken(paths.drop_last());
        let kept = trim_all(paths.drop_last());
        let candidate = paths.last();
        let k = first_container(kept, candidate);
        lemma_not_contained_taken(kept.take(k), candidate);
        let head = not_contained(kept.take(k), candidate);
        let out = trim_all(paths);
        assert forall|i: int| 0 <= i < out.len() implies paths.contains(#[trigger] out[i]) by {
            let path = out[i];
            if i < head.len() && 0 <= k <= kept.len() {
                assert(path == head[i]);
                assert(kept.take(k).contains(head[i]));
                let j = choose|j: int| 0 <= j < kept.take(k).len() && kept.take(k)[j] == head[i];
                assert(kept[j] == path);
                lemma_kept_is_given(paths, kept, j);
            } else if k < kept.len() && 0 <= k {
                assert(out == head + kept.skip(k));
                assert(path == kept.skip(k)[i - head.len()]);
                lemma_kept_is_given(paths, kept, k + i - head.len());
            } else if !(0 <= k <= kept.len()) {
                if i < head.len() {
                    assert(kept.take(k).contains(head[i]));
                    let j = choose|j: int|
                        0 <= j < kept.take(k).len() && kept.take(k)[j] == head[i];
                    assert(false) by {
                        lemma_first_container_in_range(kept, candidate);
                    }
                } else {
                    lemma_first_container_in_range(kept, candidate);
                }
            } else {
                assert(out == head.push(candidate));
                assert(path == candidate);
                assert(paths[paths.len() - 1] == path);
            }
        }
    }
}

/// The place of the first container lies among the kept paths or right
/// behind them.
pub proof fn lemma_first_container_in_range(
    kept: Seq<Seq<PossibleIntervalView>>,
    candidate: Seq<PossibleIntervalView>,
)
    ensures
        0 <= first_container(kept, candidate) <= kept.len(),
{
    if exists|i: int|
        0 <= i < kept.len() && path_contains(kept[i], candidate) {
        lemma_first_container_exists(
            kept,
            candidate,
            kept.len() as int,
        );
        let f = choose|f: int| 0 <= f < kept.len() && is_first_container(kept, candidate, f);
        lemma_first_container_is(kept, candidate, f);
    } else {
        lemma_first_container_is(kept, candidate, kept.len() as int);
    }
}

/// A path kept from all but the last of the given paths is a given path.
proof fn lemma_kept_is_given(
    paths: Seq<Seq<PossibleIntervalView>>,
    kept: Seq<Seq<PossibleIntervalView>>,
    j: int,
)
    requires
        paths.len() > 0,
        taken_from(kept, paths.drop_last()),
        0 <= j < kept.len(),
    ensures
        paths.contains(kept[j]),
{
    assert(paths.drop_last().contains(kept[j]));
    let m = choose|m: int| 0 <= m < paths.drop_last().len() && paths.drop_last()[m] == kept[j];
    assert(paths[m] == kept[j]);
}

/// Sorting hands out paths that it was given, and no others.
pub proof fn lemma_sort_taken(paths: Seq<Seq<PossibleIntervalView>>)
    ensures
        taken_from(sort_by_score(paths), paths),
    decreases paths.len(),
{
    if paths.len() > 0 {
        lemma_sort_taken(paths.drop_last());
        let sorted = sort_by_score(paths.drop_last());
        let score = path_score(paths.last());
        lemma_slot_exists(sorted, score, sorted.len() as int);
        let k = slot_of(sorted, score);
        assert(is_slot(sorted, score, k));
        let out = sort_by_score(paths);
        assert(out == sorted.insert(k, paths.last()));
        assert forall|i: int| 0 <= i < out.len() implies paths.contains(#[trigger] out[i]) by {
            if i < k {
                assert(out[i] == sorted[i]);
                lemma_kept_is_given(paths, sorted, i);
            } else if i == k {
                assert(paths[paths.len() - 1] == out[i]);
            } else {
                assert(out[i] == sorted[i - 1]);
                lemma_kept_is_given(paths, sorted, i - 1);
            }
        }
    }
}

/// Every alternative that the engine ranks is a segmentation of the whole
/// buffer.
pub proof fn lemma_ranked_are_segmentations<D: Dictionary>(dict: &D, comp: &Composition)
    requires
        comp.wf(),
    ensures
        forall|i: int|
            0 <= i < ranked_paths(dict, comp).len() ==> is_segmentation(
                dict,
                comp,
                #[trigger] ranked_paths(dict, comp)[i],
                0,
                comp.buffer@.len() as int,
            ),
{
    let len = comp.buffer@.len() as int;
    let all = paths_from(dict, comp, 0, len);
    let trimmed = trim_all(all);
    let sorted = sort_by_score(trimmed);
    let ranked = ranked_paths(dict, comp);
    lemma_paths_from_are_segmentations(dict, comp, 0, len);
    lemma_trim_all_taken(all);
    lemma_sort_taken(trimmed);
    assert forall|i: int| 0 <= i < ranked.len() implies is_segmentation(
        dict,
        comp,
        #[trigger] ranked[i],
        0,
        len,
    ) by {
        let path = sorted[sorted.len() - 1 - i];
        assert(ranked[i] == path);
        assert(trimmed.contains(path));
        let j = choose|j: int| 0 <= j < trimmed.len() && trimmed[j] == path;
        assert(all.contains(trimmed[j]));
        let m = choose|m: int| 0 <= m < all.len() && all[m] == path;
        assert(is_segmentation(dict, comp, all[m], 0, len));
    }
}

/// A rendering spans no break, and where it is a phrase of the dictionary
/// it agrees with every selection.
pub proof fn lemma_rendering_respects<D: Dictionary>(
    dict: &D,
    comp: &Composition,
    interval: PossibleIntervalView,
)
    requires
        is_rendering(dict, comp, interval),
    ensures
        !crosses_break(comp.breaks@, interval.start as int, interval.end as int),
        interval.phrase is Phrase ==> compatible(
            text_of(interval.phrase),
            interval.start as int,
            interval.end as int,
            interval_views(comp.selections@),
        ),
{
    let start = interval.start as int;
    let end = interval.end as int;
    let symbols = comp.buffer@.subrange(start, end);
    assert(start + symbols.len() == end);
}

/// Whether no interval spans a break.
pub open spec fn spans_no_break(intervals: Seq<IntervalView>, breaks: Seq<Break>) -> bool {
    forall|i: int|
        0 <= i < intervals.len() ==> !crosses_break(
            breaks,
            (#[trigger] intervals[i]).start as int,
            intervals[i].end as int,
        )
}

/// Whether no position is both a break and a glue.
pub open spec fn breaks_apart_from_glues(breaks: Seq<Break>, glues: Seq<Glue>) -> bool {
    forall|b: int, g: int|
        0 <= b < breaks.len() && 0 <= g < glues.len() ==> (#[trigger] breaks[b]).0 != (
        #[trigger] glues[g]).0
}

/// Whether each interval starts where the one before it ends.
pub open spec fn adjoining(intervals: Seq<IntervalView>) -> bool {
    forall|i: int|
        0 <= i < intervals.len() - 1 ==> (#[trigger] intervals[i]).end == intervals[i + 1].start
}

/// Whether no interval ends before it starts.
pub open spec fn spans_ordered(intervals: Seq<IntervalView>) -> bool {
    forall|i: int| 0 <= i < intervals.len() ==> (#[trigger] intervals[i]).start <= intervals[i].end
}

/// Whether every interval spans at least one position.
pub open spec fn spans_filled(intervals: Seq<IntervalView>) -> bool {
    forall|i: int| 0 <= i < intervals.len() ==> (#[trigger] intervals[i]).start < intervals[i].end
}

/// All but the last of adjoining intervals adjoin, and what holds of every
/// span holds of theirs.
proof fn lemma_adjoining_without_last(intervals: Seq<IntervalView>)
    requires
        intervals.len() > 0,
        adjoining(intervals),
    ensures
        adjoining(intervals.drop_last()),
        spans_ordered(intervals) ==> spans_ordered(intervals.drop_last()),
        spans_filled(intervals) ==> spans_filled(intervals.drop_last()),
        intervals.len() > 1 ==> intervals.drop_last().last().end == intervals.last().start,
        intervals.len() > 1 ==> intervals.drop_last()[0] == intervals[0],
{
    let before = intervals.drop_last();
    assert forall|i: int| 0 <= i < before.len() - 1 implies (#[trigger] before[i]).end == before[i
        + 1].start by {
        assert(before[i] == intervals[i]);
        assert(before[i + 1] == intervals[i + 1]);
    }
    if spans_ordered(intervals) {
        assert forall|i: int| 0 <= i < before.len() implies (#[trigger] before[i]).start
            <= before[i].end by {
            assert(before[i] == intervals[i]);
        }
    }
    if spans_filled(intervals) {
        assert forall|i: int| 0 <= i < before.len() implies (#[trigger] before[i]).start
            < before[i].end by {
            assert(before[i] == intervals[i]);
        }
    }
    if intervals.len() > 1 {
        assert(before.last() == intervals[intervals.len() - 2]);
        assert(intervals[intervals.len() - 2].end == intervals[intervals.len() - 1].start);
    }
}

/// Joining at the glues keeps adjoining intervals adjoining: they start
/// and end where they did, none comes to end before it starts, and none
/// that spanned a position comes to span none.
pub proof fn lemma_glue_keeps_adjoining(glues: Seq<Glue>, intervals: Seq<IntervalView>)
    requires
        adjoining(intervals),
    ensures
        adjoining(glue_all(glues, intervals)),
        glue_all(glues, intervals).len() == 0 <==> intervals.len() == 0,
        intervals.len() > 0 ==> glue_all(glues, intervals)[0].start == intervals[0].start
            && glue_all(glues, intervals).last().end == intervals.last().end,
        spans_ordered(intervals) ==> spans_ordered(glue_all(glues, intervals)),
        spans_filled(intervals) ==> spans_filled(glue_all(glues, intervals)),
    decreases intervals.len(),
{
    if intervals.len() > 0 {
        let before = intervals.drop_last();
        let last = intervals.last();
        lemma_adjoining_without_last(intervals);
        lemma_glue_keeps_adjoining(glues, before);
        let acc = glue_all(glues, before);
        let out = glue(glues, acc, last);
        assert(glue_all(glues, intervals) == out);
        assert(intervals[intervals.len() - 1] == last);
        if acc.len() > 0 {
            assert(acc.last().end == last.start);
        }
        if acc.len() > 0 && glues.contains(Glue(acc.last().end)) {
            let merged = IntervalView {
                start: acc.last().start,
                end: last.end,
                is_phrase: true,
                phrase: acc.last().phrase + last.phrase,
            };
            assert(out == acc.drop_last().push(merged));
            assert(out[out.len() - 1] == merged);
            assert forall|i: int| 0 <= i < out.len() - 1 implies (#[trigger] out[i]).end == out[i
                + 1].start by {
                assert(out[i] == acc[i]);
                if i + 1 < out.len() - 1 {
                    assert(out[i + 1] == acc[i + 1]);
                }
            }
            if acc.len() > 1 {
                assert(out[0] == acc[0]);
            }
            if spans_ordered(intervals) {
                assert(acc.last().start <= acc.last().end);
                assert(last.start <= last.end);
                assert forall|i: int| 0 <= i < out.len() implies (#[trigger] out[i]).start
                    <= out[i].end by {
                    if i < out.len() - 1 {
                        assert(out[i] == acc[i]);
                    }
                }
            }
            if spans_filled(intervals) {
                assert(acc.last().start < acc.last().end);
                assert(last.start < last.end);
                assert forall|i: int| 0 <= i < out.len() implies (#[trigger] out[i]).start
                    < out[i].end by {
                    if i < out.len() - 1 {
                        assert(out[i] == acc[i]);
                    }
                }
            }
        } else {
            assert(out == acc.push(last));
            assert(out[out.len() - 1] == last);
            assert forall|i: int| 0 <= i < out.len() - 1 implies (#[trigger] out[i]).end == out[i
                + 1].start by {
                assert(out[i] == acc[i]);
                if i + 1 < out.len() - 1 {
                    assert(out[i + 1] == acc[i + 1]);
                }
            }
            if acc.len() > 0 {
                assert(out[0] == acc[0]);
            }
            if spans_ordered(intervals) {
                assert(last.start <= last.end);
                assert forall|i: int| 0 <= i < out.len() implies (#[trigger] out[i]).start
                    <= out[i].end by {
                    if i < out.len() - 1 {
                        assert(out[i] == acc[i]);
                    }
                }
            }
            if spans_filled(intervals) {
                assert(last.start < last.end);
                assert forall|i: int| 0 <= i < out.len() implies (#[trigger] out[i]).start
                    < out[i].end by {
                    if i < out.len() - 1 {
                        assert(out[i] == acc[i]);
                    }
                }
            }
        }
    }
}

/// Joining at the glues keeps a chain a chain.
pub proof fn lemma_glue_keeps_chain(
    glues: Seq<Glue>,
    intervals: Seq<IntervalView>,
    from: int,
    to: int,
)
    requires
        chained(intervals, from, to),
    ensures
        chained(glue_all(glues, intervals), from, to),
{
    if intervals.len() > 0 {
        lemma_glue_keeps_adjoining(glues, intervals);
    }
}

/// Joining adjoining intervals at the glues makes no interval span a
/// break, where no interval did and no glue is a break.
pub proof fn lemma_glue_spans_no_break(
    glues: Seq<Glue>,
    breaks: Seq<Break>,
    intervals: Seq<IntervalView>,
)
    requires
        adjoining(intervals),
        spans_no_break(intervals, breaks),
        breaks_apart_from_glues(breaks, glues),
    ensures
        spans_no_break(glue_all(glues, intervals), breaks),
    decreases intervals.len(),
{
    if intervals.len() > 0 {
        let before = intervals.drop_last();
        let last = intervals.last();
        lemma_adjoining_without_last(intervals);
        assert(spans_no_break(before, breaks)) by {
            assert forall|i: int| 0 <= i < before.len() implies !crosses_break(
                breaks,
                (#[trigger] before[i]).start as int,
                before[i].end as int,
            ) by {
                assert(before[i] == intervals[i]);
            }
        }
        lemma_glue_spans_no_break(glues, breaks, before);
        lemma_glue_keeps_adjoining(glues, before);
        let acc = glue_all(glues, before);
        let out = glue(glues, acc, last);
        assert(glue_all(glues, intervals) == out);
        assert(intervals[intervals.len() - 1] == last);
        assert(!crosses_break(breaks, last.start as int, last.end as int));
        if acc.len() > 0 && glues.contains(Glue(acc.last().end)) {
            let merged = IntervalView {
                start: acc.last().start,
                end: last.end,
                is_phrase: true,
                phrase: acc.last().phrase + last.phrase,
            };
            assert(out == acc.drop_last().push(merged));
            let g = choose|g: int| 0 <= g < glues.len() && glues[g] == Glue(acc.last().end);
            assert(!crosses_break(breaks, acc.last().start as int, acc.last().end as int));
            assert(acc.last().end == last.start);
            assert(!crosses_break(breaks, merged.start as int, merged.end as int)) by {
                if crosses_break(breaks, merged.start as int, merged.end as int) {
                    let b = choose|b: int|
                        0 <= b < breaks.len() && merged.start < (#[trigger] breaks[b]).0
                            < merged.end;
                    assert(breaks[b].0 != glues[g].0);
                    if breaks[b].0 < acc.last().end {
                        assert(acc.last().start < breaks[b].0 < acc.last().end);
                    } else {
                        assert(last.start < breaks[b].0 < last.end);
                    }
                }
            }
            assert forall|i: int| 0 <= i < out.len() implies !crosses_break(
                breaks,
                (#[trigger] out[i]).start as int,
                out[i].end as int,
            ) by {
                if i < out.len() - 1 {
                    assert(out[i] == acc[i]);
                }
            }
        } else {
            assert(out == acc.push(last));
            assert forall|i: int| 0 <= i < out.len() implies !crosses_break(
                breaks,
                (#[trigger] out[i]).start as int,
                out[i].end as int,
            ) by {
                if i < out.len() - 1 {
                    assert(out[i] == acc[i]);
                }
            }
        }
    }
}

/// Without glues the intervals are handed out as they are.
pub proof fn lemma_no_glue_joins_nothing(glues: Seq<Glue>, intervals: Seq<IntervalView>)
    requires
        glues.len() == 0,
    ensures
        glue_all(glues, intervals) == intervals,
    decreases intervals.len(),
{
    if intervals.len() > 0 {
        lemma_no_glue_joins_nothing(glues, intervals.drop_last());
        assert(intervals.drop_last().push(intervals.last()) =~= intervals);
    }
}

/// Whether every interval that is a phrase of the dictionary has, for each
/// selection that lies inside it, the selected text at the selection's
/// place.
pub open spec fn keeps_selections(
    intervals: Seq<IntervalView>,
    selections: Seq<IntervalView>,
) -> bool {
    forall|i: int, j: int|
        0 <= i < intervals.len() && 0 <= j < selections.len() && (#[trigger] intervals[i]).is_phrase
            ==> agrees(
            intervals[i].phrase,
            intervals[i].start as int,
            intervals[i].end as int,
            #[trigger] selections[j],
        )
}

/// A path of renderings, handed out as it is, spans no break and keeps the
/// selections.
pub proof fn lemma_renderings_respect<D: Dictionary>(
    dict: &D,
    comp: &Composition,
    path: Seq<PossibleIntervalView>,
)
    requires
        all_renderings(dict, comp, path),
    ensures
        spans_no_break(to_intervals(path), comp.breaks@),
        keeps_selections(to_intervals(path), interval_views(comp.selections@)),
{
    let out = to_intervals(path);
    assert forall|i: int| 0 <= i < out.len() implies !crosses_break(
        comp.breaks@,
        (#[trigger] out[i]).start as int,
        out[i].end as int,
    ) by {
        lemma_rendering_respects(dict, comp, path[i]);
    }
    let selections = interval_views(comp.selections@);
    assert forall|i: int, j: int|
        0 <= i < out.len() && 0 <= j < selections.len() && (#[trigger] out[i]).is_phrase implies agrees(
        out[i].phrase,
        out[i].start as int,
        out[i].end as int,
        #[trigger] selections[j],
    ) by {
        lemma_rendering_respects(dict, comp, path[i]);
    }
}

/// Whether a path is empty, or ends at `to` with each of its intervals
/// starting where the one before it ends.
pub open spec fn adjoining_to(path: Seq<PossibleIntervalView>, to: int) -> bool {
    path.len() == 0 || {
        &&& path.last().end == to
        &&& forall|i: int| 0 <= i < path.len() - 1 ==> (#[trigger] path[i]).end == path[i + 1].start
    }
}

/// Whether the search holds, for every position, a path that ends there.
pub open spec fn table_adjoining(best: Seq<Seq<PossibleIntervalView>>) -> bool {
    forall|k: int| 0 <= k < best.len() ==> adjoining_to(#[trigger] best[k], k)
}

/// The search keeps to paths of adjoining intervals that end at their
/// position.
pub proof fn lemma_relax_all_adjoining<D: Dictionary>(
    dict: &D,
    comp: &Composition,
    best: Seq<Seq<PossibleIntervalView>>,
    intervals: Seq<PossibleIntervalView>,
)
    requires
        table_of_renderings(dict, comp, best),
        table_adjoining(best),
        all_renderings(dict, comp, intervals),
    ensures
        table_adjoining(relax_all(best, intervals)),
    decreases intervals.len(),
{
    if intervals.len() > 0 {
        assert(all_renderings(dict, comp, intervals.drop_last())) by {
            assert forall|i: int| 0 <= i < intervals.drop_last().len() implies is_rendering(
                dict,
                comp,
                #[trigger] intervals.drop_last()[i],
            ) by {
                assert(intervals.drop_last()[i] == intervals[i]);
            }
        }
        lemma_relax_all_adjoining(dict, comp, best, intervals.drop_last());
        lemma_relax_all_renderings(dict, comp, best, intervals.drop_last());
        let before = relax_all(best, intervals.drop_last());
        let interval = intervals.last();
        assert(is_rendering(dict, comp, interval));
        let prefix = before[interval.start as int];
        let candidate = prefix.push(interval);
        assert(adjoining_to(prefix, interval.start as int));
        assert(adjoining_to(candidate, interval.end as int)) by {
            assert forall|i: int| 0 <= i < candidate.len() - 1 implies (
            #[trigger] candidate[i]).end == candidate[i + 1].start by {
                assert(candidate[i] == prefix[i]);
                if i + 1 < prefix.len() {
                    assert(candidate[i + 1] == prefix[i + 1]);
                }
            }
        }
    }
}

/// The intervals of the best path adjoin: whatever the search ends with,
/// each of its intervals is a rendering that starts where the one before
/// it ends, and where there is any the last of them ends where the buffer
/// ends.
pub proof fn best_path_is_adjoining<D: Dictionary>(dict: &D, comp: &Composition)
    requires
        comp.wf(),
    ensures
        adjoining_to(chosen_path(dict, comp), comp.buffer@.len() as int),
        all_renderings(dict, comp, chosen_path(dict, comp)),
{
    let len = comp.buffer@.len() as int;
    lemma_intervals_are_renderings(dict, comp, len + 1);
    lemma_sorted_renderings(dict, comp, all_intervals(dict, comp), len + 1);
    let empty = Seq::new((len + 1) as nat, |i: int| Seq::<PossibleIntervalView>::empty());
    let sorted = sorted_by_end(all_intervals(dict, comp), len + 1);
    lemma_relax_all_adjoining(dict, comp, empty, sorted);
    lemma_relax_all_renderings(dict, comp, empty, sorted);
}

/// The best path of a composition, before it is handed out.
pub open spec fn chosen_path<D: Dictionary>(dict: &D, comp: &Composition) -> Seq<
    PossibleIntervalView,
> {
    best_path(comp.buffer@.len() as int, all_intervals(dict, comp))
}

/// An alternative covers the buffer: what `convert_next` hands out is
/// either empty, or its intervals follow one another without a gap from
/// the start of the buffer to its end, also after they were joined at the
/// glues. It is empty only where the buffer is empty or has no
/// segmentation.
pub proof fn convert_next_covers_buffer<D: Dictionary>(dict: &D, comp: &Composition, next: nat)
    requires
        comp.wf(),
    ensures
        convert_next_spec(dict, comp, next as int).len() == 0 || chained(
            convert_next_spec(dict, comp, next as int),
            0,
            comp.buffer@.len() as int,
        ),
        convert_next_spec(dict, comp, next as int).len() == 0 <==> (comp.buffer@.len() == 0
            || paths_from(dict, comp, 0, comp.buffer@.len() as int).len() == 0),
{
    let len = comp.buffer@.len() as int;
    let all = paths_from(dict, comp, 0, len);
    let ranked = ranked_paths(dict, comp);
    lemma_sort_keeps_len(trim_all(all));
    if all.len() > 0 {
        lemma_trim_keeps_one(all);
    } else {
        assert(trim_all(all).len() == 0);
    }
    if len > 0 && ranked.len() > 0 {
        let count = ranked.len() as int;
        let path = ranked[next as int % count];
        lemma_ranked_are_segmentations(dict, comp);
        assert(is_segmentation(dict, comp, path, 0, len));
        lemma_glue_keeps_chain(comp.glues@, to_intervals(path), 0, len);
    }
}

/// The intervals of a path of adjoining renderings, handed out one by one,
/// adjoin, and none of them ends before it starts.
proof fn lemma_adjoining_path<D: Dictionary>(
    dict: &D,
    comp: &Composition,
    path: Seq<PossibleIntervalView>,
    to: int,
)
    requires
        adjoining_to(path, to),
        all_renderings(dict, comp, path),
    ensures
        adjoining(to_intervals(path)),
        spans_ordered(to_intervals(path)),
        path.len() > 0 ==> to_intervals(path).last().end == to,
{
    let out = to_intervals(path);
    assert forall|i: int| 0 <= i < out.len() - 1 implies (#[trigger] out[i]).end == out[i
        + 1].start by {
        assert(path[i].end == path[i + 1].start);
    }
    assert forall|i: int| 0 <= i < out.len() implies (#[trigger] out[i]).start <= out[i].end by {
        assert(is_rendering(dict, comp, path[i]));
    }
}

/// The intervals of the best path adjoin, also after they were joined at
/// the glues: whatever the search ends with, each interval that `convert`
/// hands out starts where the one before it ends, none ends before it
/// starts, and where there is any the last of them ends where the buffer
/// ends.
pub proof fn convert_result_adjoins<D: Dictionary>(dict: &D, comp: &Composition)
    requires
        comp.wf(),
    ensures
        adjoining(convert_spec(dict, comp)),
        spans_ordered(convert_spec(dict, comp)),
        convert_spec(dict, comp).len() > 0 ==> convert_spec(dict, comp).last().end
            == comp.buffer@.len(),
        dict.phrases_of(Seq::<Syllable>::empty()).len() == 0 ==> spans_filled(
            convert_spec(dict, comp),
        ),
{
    let len = comp.buffer@.len() as int;
    if len > 0 {
        let path = chosen_path(dict, comp);
        best_path_is_adjoining(dict, comp);
        lemma_adjoining_path(dict, comp, path, len);
        lemma_glue_keeps_adjoining(comp.glues@, to_intervals(path));
        if dict.phrases_of(Seq::<Syllable>::empty()).len() == 0 {
            let pieces = to_intervals(path);
            assert forall|i: int| 0 <= i < pieces.len() implies (#[trigger] pieces[i]).start
                < pieces[i].end by {
                lemma_rendering_is_filled(dict, comp, path[i]);
            }
        }
    }
}

/// A rendering spans at least one position, where the dictionary files
/// nothing under no syllables at all.
pub proof fn lemma_rendering_is_filled<D: Dictionary>(
    dict: &D,
    comp: &Composition,
    interval: PossibleIntervalView,
)
    requires
        is_rendering(dict, comp, interval),
        dict.phrases_of(Seq::<Syllable>::empty()).len() == 0,
    ensures
        interval.start < interval.end,
{
    if interval.start == interval.end {
        let symbols = comp.buffer@.subrange(interval.start as int, interval.end as int);
        assert(symbols.len() == 0);
        assert(syllables_of(symbols) =~= Seq::<Syllable>::empty());
    }
}

/// The best path covers the buffer where the search ends with a path
/// that does: joining at the glues keeps the intervals following one
/// another without a gap from the start of the buffer to its end.
pub proof fn convert_covers_buffer<D: Dictionary>(dict: &D, comp: &Composition)
    requires
        comp.wf(),
        comp.buffer@.len() > 0,
        chained(to_intervals(chosen_path(dict, comp)), 0, comp.buffer@.len() as int),
    ensures
        chained(convert_spec(dict, comp), 0, comp.buffer@.len() as int),
{
    lemma_glue_keeps_chain(
        comp.glues@,
        to_intervals(chosen_path(dict, comp)),
        0,
        comp.buffer@.len() as int,
    );
}

/// No interval of an alternative spans a break, where no position is both
/// a break and a glue.
pub proof fn convert_next_spans_no_break<D: Dictionary>(dict: &D, comp: &Composition, next: nat)
    requires
        comp.wf(),
        breaks_apart_from_glues(comp.breaks@, comp.glues@),
    ensures
        spans_no_break(convert_next_spec(dict, comp, next as int), comp.breaks@),
{
    let len = comp.buffer@.len() as int;
    let ranked = ranked_paths(dict, comp);
    if len > 0 && ranked.len() > 0 {
        let count = ranked.len() as int;
        let path = ranked[next as int % count];
        lemma_ranked_are_segmentations(dict, comp);
        assert(is_segmentation(dict, comp, path, 0, len));
        lemma_renderings_respect(dict, comp, path);
        lemma_glue_spans_no_break(comp.glues@, comp.breaks@, to_intervals(path));
    }
}

/// No interval of the best path spans a break, where no position is both
/// a break and a glue, whatever the search ends with.
pub proof fn convert_spans_no_break<D: Dictionary>(dict: &D, comp: &Composition)
    requires
        comp.wf(),
        breaks_apart_from_glues(comp.breaks@, comp.glues@),
    ensures
        spans_no_break(convert_spec(dict, comp), comp.breaks@),
{
    let len = comp.buffer@.len() as int;
    if len > 0 {
        let path = chosen_path(dict, comp);
        best_path_is_adjoining(dict, comp);
        lemma_adjoining_path(dict, comp, path, len);
        lemma_renderings_respect(dict, comp, path);
        lemma_glue_spans_no_break(comp.glues@, comp.breaks@, to_intervals(path));
    }
}

/// Before the intervals are joined, no interval of the best path spans a
/// break, whatever the search ends with.
pub proof fn best_path_spans_no_break<D: Dictionary>(dict: &D, comp: &Composition)
    requires
        comp.wf(),
    ensures
        spans_no_break(to_intervals(chosen_path(dict, comp)), comp.breaks@),
        keeps_selections(to_intervals(chosen_path(dict, comp)), interval_views(comp.selections@)),
{
    lemma_best_path_renderings(dict, comp);
    lemma_renderings_respect(dict, comp, chosen_path(dict, comp));
}

/// Whether every interval that is a phrase of the dictionary and one of
/// the `pieces`, the intervals before any were joined, has for each
/// selection that lies inside it the selected text at the selection's
/// place.
pub open spec fn keeps_selections_in(
    intervals: Seq<IntervalView>,
    pieces: Seq<IntervalView>,
    selections: Seq<IntervalView>,
) -> bool {
    forall|i: int, j: int|
        0 <= i < intervals.len() && 0 <= j < selections.len() && (#[trigger] intervals[i]).is_phrase
            && pieces.contains(intervals[i]) ==> agrees(
            intervals[i].phrase,
            intervals[i].start as int,
            intervals[i].end as int,
            #[trigger] selections[j],
        )
}

/// What holds of every piece holds of the intervals that are pieces.
proof fn lemma_pieces_keep_selections(
    intervals: Seq<IntervalView>,
    pieces: Seq<IntervalView>,
    selections: Seq<IntervalView>,
)
    requires
        keeps_selections(pieces, selections),
    ensures
        keeps_selections_in(intervals, pieces, selections),
{
    assert forall|i: int, j: int|
        0 <= i < intervals.len() && 0 <= j < selections.len() && (#[trigger] intervals[i]).is_phrase
            && pieces.contains(intervals[i]) implies agrees(
        intervals[i].phrase,
        intervals[i].start as int,
        intervals[i].end as int,
        #[trigger] selections[j],
    ) by {
        let k = choose|k: int| 0 <= k < pieces.len() && pieces[k] == intervals[i];
        assert(pieces[k].is_phrase);
    }
}

/// The best path keeps the selections: every interval that `convert`
/// hands out as the search found it, not joined with another, and that is
/// a phrase of the dictionary has, for each selection inside it, the
/// selected text at the selection's place. Where the composition has no
/// glue, that is every interval that is a phrase.
pub proof fn convert_keeps_selections<D: Dictionary>(dict: &D, comp: &Composition)
    requires
        comp.wf(),
    ensures
        keeps_selections_in(
            convert_spec(dict, comp),
            to_intervals(chosen_path(dict, comp)),
            interval_views(comp.selections@),
        ),
        comp.glues@.len() == 0 ==> keeps_selections(
            convert_spec(dict, comp),
            interval_views(comp.selections@),
        ),
{
    let path = chosen_path(dict, comp);
    lemma_best_path_renderings(dict, comp);
    lemma_renderings_respect(dict, comp, path);
    lemma_pieces_keep_selections(
        convert_spec(dict, comp),
        to_intervals(path),
        interval_views(comp.selections@),
    );
    if comp.buffer@.len() > 0 && comp.glues@.len() == 0 {
        lemma_no_glue_joins_nothing(comp.glues@, to_intervals(path));
    }
}

/// The path that the alternative number `next` is handed out from; the
/// empty path where there is no alternative.
pub open spec fn alternative_path<D: Dictionary>(dict: &D, comp: &Composition, next: int) -> Seq<
    PossibleIntervalView,
> {
    let ranked = ranked_paths(dict, comp);
    if comp.buffer@.len() == 0 || ranked.len() == 0 {
        Seq::empty()
    } else {
        ranked[next % (ranked.len() as int)]
    }
}

/// An alternative keeps the selections: every interval that `convert_next`
/// hands out as it stands in the path, not joined with another, and that
/// is a phrase of the dictionary has, for each selection inside it, the
/// selected text at the selection's place. Where the composition has no
/// glue, that is every interval that is a phrase.
pub proof fn convert_next_keeps_selections<D: Dictionary>(
    dict: &D,
    comp: &Composition,
    next: nat,
)
    requires
        comp.wf(),
    ensures
        convert_next_spec(dict, comp, next as int) == glue_all(
            comp.glues@,
            to_intervals(alternative_path(dict, comp, next as int)),
        ),
        keeps_selections_in(
            convert_next_spec(dict, comp, next as int),
            to_intervals(alternative_path(dict, comp, next as int)),
            interval_views(comp.selections@),
        ),
        comp.glues@.len() == 0 ==> keeps_selections(
            convert_next_spec(dict, comp, next as int),
            interval_views(comp.selections@),
        ),
{
    let len = comp.buffer@.len() as int;
    let ranked = ranked_paths(dict, comp);
    let path = alternative_path(dict, comp, next as int);
    if len > 0 && ranked.len() > 0 {
        lemma_ranked_are_segmentations(dict, comp);
        assert(is_segmentation(dict, comp, path, 0, len));
        lemma_renderings_respect(dict, comp, path);
        if comp.glues@.len() == 0 {
            lemma_no_glue_joins_nothing(comp.glues@, to_intervals(path));
        }
    } else {
        assert(to_intervals(path) =~= Seq::<IntervalView>::empty());
        assert(keeps_selections(to_intervals(path), interval_views(comp.selections@)));
    }
    lemma_pieces_keep_selections(
        convert_next_spec(dict, comp, next as int),
        to_intervals(path),
        interval_views(comp.selections@),
    );
}

/// The alternatives come round again: after as many steps as there are
/// alternatives, or any multiple of that, the same one is handed out.
pub proof fn convert_next_is_cyclic<D: Dictionary>(
    dict: &D,
    comp: &Composition,
    next: nat,
    rounds: nat,
)
    ensures
        convert_next_spec(dict, comp, next as int) == convert_next_spec(
            dict,
            comp,
            (next + rounds * ranked_paths(dict, comp).len()) as int,
        ),
{
    let count = ranked_paths(dict, comp).len() as int;
    if count > 0 {
        vstd::arithmetic::div_mod::lemma_mod_multiples_vanish(rounds as int, next as int, count);
        assert(count * rounds == rounds * count) by (nonlinear_arith);
    }
}

/// Whether the interval lies in an interval of the path.
pub open spec fn lies_in(path: Seq<PossibleIntervalView>, interval: PossibleIntervalView) -> bool {
    exists|i: int| 0 <= i < path.len() && covers(#[trigger] path[i], interval)
}

/// Whether every interval of `small` from the place `from` on lies in an
/// interval of `big`.
pub open spec fn refines(
    small: Seq<PossibleIntervalView>,
    big: Seq<PossibleIntervalView>,
    from: int,
) -> bool {
    forall|j: int| from <= j < small.len() ==> lies_in(big, #[trigger] small[j])
}

/// In a chain an interval ends no later than a later one starts.
pub proof fn lemma_chain_is_ordered(intervals: Seq<IntervalView>, from: int, to: int, i: int, k: int)
    requires
        chained(intervals, from, to),
        0 <= i < k < intervals.len(),
    ensures
        intervals[i].end <= intervals[k].start,
        intervals[i].start < intervals[k].start,
    decreases k - i,
{
    if i + 1 < k {
        lemma_chain_is_ordered(intervals, from, to, i + 1, k);
        assert(intervals[i].end == intervals[i + 1].start);
        assert(intervals[i + 1].start < intervals[i + 1].end);
    } else {
        assert(intervals[i].end == intervals[i + 1].start);
    }
}

/// Where every interval of `big` from `i` on starts after the interval
/// `small[j]` starts, the walk from there finds no interval for it.
proof fn lemma_walk_fails(
    big: Seq<PossibleIntervalView>,
    small: Seq<PossibleIntervalView>,
    i: int,
    j: int,
)
    requires
        0 <= i <= big.len(),
        0 <= j < small.len(),
        forall|k: int| i <= k < big.len() ==> (#[trigger] big[k]).start > small[j].start,
    ensures
        !contains_from(big, small, i, j),
    decreases big.len() - i,
{
    if i < big.len() && big[i].start < small[j].end {
        assert(!covers(big[i], small[j]));
        lemma_walk_fails(big, small, i + 1, j);
    }
}

/// What the walk over two segmentations of the same part of the buffer
/// amounts to, from a place where the interval of `small` starts inside
/// the interval of `big` or right behind it.
proof fn lemma_walk_of_chains(
    big: Seq<PossibleIntervalView>,
    small: Seq<PossibleIntervalView>,
    from: int,
    to: int,
    i: int,
    j: int,
)
    requires
        chained(to_intervals(big), from, to),
        chained(to_intervals(small), from, to),
        0 <= i <= big.len(),
        0 <= j <= small.len(),
        j < small.len() ==> i < big.len() && big[i].start <= small[j].start <= big[i].end,
    ensures
        contains_from(big, small, i, j) == refines(small, big, j),
    decreases small.len() - j, big.len() - i,
{
    let a = to_intervals(big);
    let b = to_intervals(small);
    if j < small.len() {
        assert(a[i] == to_interval(big[i]));
        assert(b[j] == to_interval(small[j]));
        assert(a[a.len() - 1] == to_interval(big[big.len() - 1]));
        assert(b[b.len() - 1] == to_interval(small[small.len() - 1]));
        assert(small[j].start < small[j].end);
        assert(big[i].start < big[i].end);
        if j < small.len() - 1 {
            lemma_chain_is_ordered(b, from, to, j, small.len() - 1);
        }
        assert(small[j].end <= to);
        if small[j].start == big[i].end {
            assert(i < big.len() - 1) by {
                if i == big.len() - 1 {
                    assert(big[i].end == to);
                }
            }
            assert(a[i + 1] == to_interval(big[i + 1]));
            assert(a[i].end == a[i + 1].start);
            assert(!covers(big[i], small[j]));
            lemma_walk_of_chains(big, small, from, to, i + 1, j);
        } else if small[j].end <= big[i].end {
            assert(covers(big[i], small[j]));
            if j + 1 < small.len() {
                assert(b[j + 1] == to_interval(small[j + 1]));
                assert(b[j].end == b[j + 1].start);
            }
            lemma_walk_of_chains(big, small, from, to, i, j + 1);
            assert(refines(small, big, j) == refines(small, big, j + 1)) by {
                if refines(small, big, j + 1) {
                    assert forall|m: int| j <= m < small.len() implies lies_in(
                        big,
                        #[trigger] small[m],
                    ) by {
                        if m == j {
                            assert(covers(big[i], small[j]));
                        }
                    }
                }
            }
        } else {
            assert(!covers(big[i], small[j]));
            assert forall|k: int| i + 1 <= k < big.len() implies (#[trigger] big[k]).start
                > small[j].start by {
                assert(a[k] == to_interval(big[k]));
                lemma_chain_is_ordered(a, from, to, i, k);
            }
            lemma_walk_fails(big, small, i + 1, j);
            assert(!refines(small, big, j)) by {
                if refines(small, big, j) {
                    assert(lies_in(big, small[j]));
                    let k = choose|k: int| 0 <= k < big.len() && covers(#[trigger] big[k], small[j]);
                    assert(a[k] == to_interval(big[k]));
                    if k < i {
                        lemma_chain_is_ordered(a, from, to, k, i);
                    } else if k > i {
                        lemma_chain_is_ordered(a, from, to, i, k);
                    }
                }
            }
        }
    }
}

/// A segmentation contains another segmentation of the same part of the
/// buffer exactly where the other refines it: where every interval of the
/// other lies in one of its intervals.
pub proof fn contains_means_refines(
    big: Seq<PossibleIntervalView>,
    small: Seq<PossibleIntervalView>,
    from: int,
    to: int,
)
    requires
        chained(to_intervals(big), from, to),
        chained(to_intervals(small), from, to),
    ensures
        path_contains(big, small) == refines(small, big, 0),
{
    let a = to_intervals(big);
    let b = to_intervals(small);
    if small.len() > 0 {
        assert(b[0] == to_interval(small[0]));
        assert(b[b.len() - 1] == to_interval(small[small.len() - 1]));
        assert(from < to) by {
            if small.len() > 1 {
                lemma_chain_is_ordered(b, from, to, 0, small.len() - 1);
            }
        }
        assert(big.len() > 0);
        assert(a[0] == to_interval(big[0]));
    }
    lemma_walk_of_chains(big, small, from, to, 0, 0);
}

/// Whether the paths stand by their score, the lowest first.
pub open spec fn ascending_scores(paths: Seq<Seq<PossibleIntervalView>>) -> bool {
    forall|i: int, j: int|
        0 <= i < j < paths.len() ==> path_score(#[trigger] paths[i]) <= path_score(
            #[trigger] paths[j],
        )
}

/// Sorting puts the paths in the order of their scores.
pub proof fn lemma_sort_ascends(paths: Seq<Seq<PossibleIntervalView>>)
    ensures
        ascending_scores(sort_by_score(paths)),
    decreases paths.len(),
{
    if paths.len() > 0 {
        lemma_sort_ascends(paths.drop_last());
        let sorted = sort_by_score(paths.drop_last());
        let score = path_score(paths.last());
        lemma_slot_exists(sorted, score, sorted.len() as int);
        let k = slot_of(sorted, score);
        assert(is_slot(sorted, score, k));
        let out = sort_by_score(paths);
        assert(out == sorted.insert(k, paths.last()));
        assert forall|i: int, j: int| 0 <= i < j < out.len() implies path_score(
            #[trigger] out[i],
        ) <= path_score(#[trigger] out[j]) by {
            if j < k {
                assert(path_score(sorted[i]) <= path_score(sorted[j]));
            } else if j == k {
                assert(path_score(sorted[i]) <= score);
            } else if i < k {
                assert(path_score(sorted[i]) <= path_score(sorted[j - 1]));
            } else if i == k {
                if j - 1 > k {
                    assert(path_score(sorted[k]) <= path_score(sorted[j - 1]));
                }
            } else {
                assert(path_score(sorted[i - 1]) <= path_score(sorted[j - 1]));
            }
        }
    }
}

/// The alternatives are ranked by their score: none scores higher than one
/// that is handed out before it, and so the first scores highest.
pub proof fn alternatives_are_ranked_by_score<D: Dictionary>(dict: &D, comp: &Composition)
    ensures
        forall|i: int, j: int|
            0 <= i < j < ranked_paths(dict, comp).len() ==> path_score(
                #[trigger] ranked_paths(dict, comp)[i],
            ) >= path_score(#[trigger] ranked_paths(dict, comp)[j]),
{
    let trimmed = trim_all(paths_from(dict, comp, 0, comp.buffer@.len() as int));
    let sorted = sort_by_score(trimmed);
    let ranked = ranked_paths(dict, comp);
    lemma_sort_ascends(trimmed);
    assert forall|i: int, j: int| 0 <= i < j < ranked.len() implies path_score(
        #[trigger] ranked[i],
    ) >= path_score(#[trigger] ranked[j]) by {
        assert(ranked[i] == sorted[sorted.len() - 1 - i]);
        assert(ranked[j] == sorted[sorted.len() - 1 - j]);
    }
}

/// The intervals that start at `begin` hold every rendering that starts
/// there and ends before `end`.
pub proof fn lemma_row_holds_rendering<D: Dictionary>(
    dict: &D,
    comp: &Composition,
    interval: PossibleIntervalView,
    end: int,
)
    requires
        is_rendering(dict, comp, interval),
        interval.end < end,
    ensures
        row_intervals(dict, comp, interval.start as int, end).contains(interval),
    decreases end - interval.end,
{
    let begin = interval.start as int;
    let row = row_intervals(dict, comp, begin, end);
    if end - 1 == interval.end {
        assert(row[row.len() - 1] == interval);
    } else {
        lemma_row_holds_rendering(dict, comp, interval, end - 1);
        let before = row_intervals(dict, comp, begin, end - 1);
        let m = choose|m: int| 0 <= m < before.len() && before[m] == interval;
        assert(row[m] == interval);
    }
}

/// The intervals that start before `begin` hold every rendering that
/// starts before it.
pub proof fn lemma_before_holds_rendering<D: Dictionary>(
    dict: &D,
    comp: &Composition,
    interval: PossibleIntervalView,
    begin: int,
)
    requires
        is_rendering(dict, comp, interval),
        interval.start < begin,
    ensures
        intervals_before(dict, comp, begin).contains(interval),
    decreases begin - interval.start,
{
    let all = intervals_before(dict, comp, begin);
    let before = intervals_before(dict, comp, begin - 1);
    let row = row_intervals(dict, comp, begin - 1, comp.buffer@.len() as int + 1);
    if begin - 1 == interval.start {
        lemma_row_holds_rendering(dict, comp, interval, comp.buffer@.len() as int + 1);
        let m = choose|m: int| 0 <= m < row.len() && row[m] == interval;
        assert(all[before.len() + m] == interval);
    } else {
        lemma_before_holds_rendering(dict, comp, interval, begin - 1);
        let m = choose|m: int| 0 <= m < before.len() && before[m] == interval;
        assert(all[m] == interval);
    }
}

/// The engine enumerates every rendering: every span of the buffer that
/// can be rendered is among the intervals, with its rendering.
pub proof fn intervals_hold_every_rendering<D: Dictionary>(
    dict: &D,
    comp: &Composition,
    interval: PossibleIntervalView,
)
    requires
        is_rendering(dict, comp, interval),
    ensures
        all_intervals(dict, comp).contains(interval),
{
    lemma_before_holds_rendering(dict, comp, interval, comp.buffer@.len() as int + 1);
}

/// The paths whose first segment ends before `ends` are among those whose
/// first segment ends before a later place.
pub proof fn lemma_paths_via_grow<D: Dictionary>(
    dict: &D,
    comp: &Composition,
    start: int,
    target: int,
    ends: int,
    later: int,
    path: Seq<PossibleIntervalView>,
)
    requires
        ends <= later <= target + 1,
        paths_via(dict, comp, start, target, ends).contains(path),
    ensures
        paths_via(dict, comp, start, target, later).contains(path),
    decreases later - ends,
{
    if ends < later {
        lemma_paths_via_grow(dict, comp, start, target, ends, later - 1, path);
        let before = paths_via(dict, comp, start, target, later - 1);
        let all = paths_via(dict, comp, start, target, later);
        let m = choose|m: int| 0 <= m < before.len() && before[m] == path;
        if later <= start + 1 {
        } else {
            assert(all[m] == path);
        }
    }
}

/// The engine enumerates every segmentation: every way to cut the buffer
/// from `start` to `target` into renderings is among the paths.
pub proof fn paths_hold_every_segmentation<D: Dictionary>(
    dict: &D,
    comp: &Composition,
    path: Seq<PossibleIntervalView>,
    start: int,
    target: int,
)
    requires
        0 <= start <= target <= comp.buffer@.len(),
        is_segmentation(dict, comp, path, start, target),
    ensures
        paths_from(dict, comp, start, target).contains(path),
    decreases path.len(),
{
    let chain = to_intervals(path);
    if path.len() == 0 {
        assert(path =~= Seq::<PossibleIntervalView>::empty());
        assert(paths_from(dict, comp, start, target)[0] == path);
    } else {
        let first = path[0];
        let tail = path.skip(1);
        let rest = to_intervals(tail);
        assert(chain[0] == to_interval(first));
        assert(chain[chain.len() - 1] == to_interval(path[path.len() - 1]));
        assert(is_rendering(dict, comp, first));
        assert(first.start < first.end);
        assert forall|k: int| 0 <= k < rest.len() implies rest[k] == chain[k + 1] by {
            assert(tail[k] == path[k + 1]);
        }
        if path.len() > 1 {
            lemma_chain_is_ordered(chain, start, target, 0, path.len() - 1);
            assert(chain[0].end == chain[1].start);
            assert(rest[0].start == first.end);
            assert(rest[rest.len() - 1] == chain[chain.len() - 1]);
            assert(chained(rest, first.end as int, target)) by {
                assert forall|k: int| 0 <= k < rest.len() implies (#[trigger] rest[k]).start
                    < rest[k].end by {
                    assert(rest[k] == chain[k + 1]);
                }
                assert forall|k: int| 0 <= k < rest.len() - 1 implies (#[trigger] rest[k]).end
                    == rest[k + 1].start by {
                    assert(rest[k] == chain[k + 1]);
                    assert(rest[k + 1] == chain[k + 2]);
                }
            }
        } else {
            assert(first.end == target);
            assert(chained(rest, first.end as int, target));
        }
        assert(all_renderings(dict, comp, tail)) by {
            assert forall|k: int| 0 <= k < tail.len() implies is_rendering(
                dict,
                comp,
                #[trigger] tail[k],
            ) by {
                assert(tail[k] == path[k + 1]);
            }
        }
        assert(first.end <= target);
        paths_hold_every_segmentation(dict, comp, tail, first.end as int, target);
        let tails = paths_from(dict, comp, first.end as int, target);
        let m = choose|m: int| 0 <= m < tails.len() && tails[m] == tail;
        let upto = paths_via(dict, comp, start, target, first.end as int + 1);
        let before = paths_via(dict, comp, start, target, first.end as int);
        let step = PossibleIntervalView {
            start: start as usize,
            end: first.end,
            phrase: first.phrase,
        };
        assert(step == first);
        assert(upto == before + prepend_all(first, tails));
        assert(upto[before.len() + m] == seq![first] + tails[m]);
        assert(seq![first] + tail =~= path);
        lemma_paths_via_grow(dict, comp, start, target, first.end as int + 1, target + 1, path);
    }
}

/// What the search holds for every position once it has taken every
/// interval: the best path is what it holds for the end of the buffer.
pub open spec fn search_table<D: Dictionary>(dict: &D, comp: &Composition) -> Seq<
    Seq<PossibleIntervalView>,
> {
    table_upto(dict, comp, comp.buffer@.len() as int + 1)
}

/// What the search holds for every position once it has taken the
/// intervals that end before `ends`.
pub open spec fn table_upto<D: Dictionary>(dict: &D, comp: &Composition, ends: int) -> Seq<
    Seq<PossibleIntervalView>,
> {
    relax_all(
        Seq::new(
            (comp.buffer@.len() + 1) as nat,
            |i: int| Seq::<PossibleIntervalView>::empty(),
        ),
        sorted_by_end(all_intervals(dict, comp), ends),
    )
}

/// Taking one run of intervals and then another is taking them all.
pub proof fn lemma_relax_all_in_turn(
    best: Seq<Seq<PossibleIntervalView>>,
    first: Seq<PossibleIntervalView>,
    second: Seq<PossibleIntervalView>,
)
    ensures
        relax_all(best, first + second) == relax_all(relax_all(best, first), second),
    decreases second.len(),
{
    if second.len() == 0 {
        assert(first + second =~= first);
    } else {
        lemma_relax_all_in_turn(best, first, second.drop_last());
        assert((first + second).drop_last() =~= first + second.drop_last());
        assert((first + second).last() == second.last());
    }
}

/// Whether every interval ends at `end`.
pub open spec fn all_end_at(intervals: Seq<PossibleIntervalView>, end: int) -> bool {
    forall|i: int| 0 <= i < intervals.len() ==> (#[trigger] intervals[i]).end == end
}

/// The intervals that end at a position end there.
pub proof fn lemma_ending_at_ends(intervals: Seq<PossibleIntervalView>, end: int)
    ensures
        all_end_at(ending_at(intervals, end), end),
    decreases intervals.len(),
{
    if intervals.len() > 0 {
        lemma_ending_at_ends(intervals.drop_last(), end);
    }
}

/// An interval that ends at a position is among the intervals that end
/// there.
pub proof fn lemma_ending_at_holds(
    intervals: Seq<PossibleIntervalView>,
    interval: PossibleIntervalView,
)
    requires
        intervals.contains(interval),
    ensures
        ending_at(intervals, interval.end as int).contains(interval),
    decreases intervals.len(),
{
    let end = interval.end as int;
    let out = ending_at(intervals, end);
    if intervals.last() == interval {
        assert(out[out.len() - 1] == interval);
    } else {
        let j = choose|j: int| 0 <= j < intervals.len() && intervals[j] == interval;
        assert(intervals.drop_last()[j] == interval);
        lemma_ending_at_holds(intervals.drop_last(), interval);
        let before = ending_at(intervals.drop_last(), end);
        let m = choose|m: int| 0 <= m < before.len() && before[m] == interval;
        assert(out[m] == interval);
    }
}

/// Taking intervals that all end at one position changes what the search
/// holds for that position alone, and never for a lower score; and what
/// it then holds there scores no lower than what it held for the start of
/// any of them with that interval added, where the interval spans a
/// position.
pub proof fn lemma_relax_at_one_end<D: Dictionary>(
    dict: &D,
    comp: &Composition,
    best: Seq<Seq<PossibleIntervalView>>,
    intervals: Seq<PossibleIntervalView>,
    end: int,
)
    requires
        table_of_renderings(dict, comp, best),
        all_renderings(dict, comp, intervals),
        all_end_at(intervals, end),
    ensures
        table_of_renderings(dict, comp, relax_all(best, intervals)),
        forall|k: int|
            0 <= k < best.len() && k != end ==> (#[trigger] relax_all(best, intervals)[k])
                == best[k],
        0 <= end < best.len() ==> path_score(relax_all(best, intervals)[end]) >= path_score(
            best[end],
        ),
        forall|m: int|
            0 <= m < intervals.len() && (#[trigger] intervals[m]).start < end ==> path_score(
                relax_all(best, intervals)[end],
            ) >= path_score(best[intervals[m].start as int].push(intervals[m])),
    decreases intervals.len(),
{
    lemma_relax_all_renderings(dict, comp, best, intervals);
    if intervals.len() > 0 {
        let short = intervals.drop_last();
        let last = intervals.last();
        assert(intervals[intervals.len() - 1] == last);
        assert(is_rendering(dict, comp, last));
        assert(all_renderings(dict, comp, short)) by {
            assert forall|i: int| 0 <= i < short.len() implies is_rendering(
                dict,
                comp,
                #[trigger] short[i],
            ) by {
                assert(short[i] == intervals[i]);
            }
        }
        assert(all_end_at(short, end)) by {
            assert forall|i: int| 0 <= i < short.len() implies (#[trigger] short[i]).end
                == end by {
                assert(short[i] == intervals[i]);
            }
        }
        lemma_relax_at_one_end(dict, comp, best, short, end);
        let before = relax_all(best, short);
        let out = relax_all(best, intervals);
        assert(out == relax(before, last));
        assert(last.end == end);
        assert forall|m: int|
            0 <= m < intervals.len() && (#[trigger] intervals[m]).start < end implies path_score(
            out[end],
        ) >= path_score(best[intervals[m].start as int].push(intervals[m])) by {
            if m < short.len() {
                assert(short[m] == intervals[m]);
            } else {
                assert(before[last.start as int] == best[last.start as int]);
            }
        }
    }
}

/// What the search holds for a position stays as it is once the search
/// has taken the intervals that end there.
pub proof fn lemma_table_settles<D: Dictionary>(
    dict: &D,
    comp: &Composition,
    ends: int,
    later: int,
)
    requires
        comp.wf(),
        0 <= ends <= later <= comp.buffer@.len() + 1,
    ensures
        table_of_renderings(dict, comp, table_upto(dict, comp, later)),
        forall|k: int|
            0 <= k < ends ==> (#[trigger] table_upto(dict, comp, later)[k]) == table_upto(
                dict,
                comp,
                ends,
            )[k],
    decreases later - ends,
{
    let len = comp.buffer@.len() as int;
    let all = all_intervals(dict, comp);
    let empty = Seq::new((len + 1) as nat, |i: int| Seq::<PossibleIntervalView>::empty());
    lemma_intervals_are_renderings(dict, comp, len + 1);
    lemma_sorted_renderings(dict, comp, all, later);
    lemma_relax_all_renderings(dict, comp, empty, sorted_by_end(all, later));
    if ends < later {
        lemma_table_settles(dict, comp, ends, later - 1);
        lemma_table_step(dict, comp, later - 1);
    }
}

/// What taking the intervals that end at `end` does to what the search
/// holds.
pub proof fn lemma_table_step<D: Dictionary>(dict: &D, comp: &Composition, end: int)
    requires
        comp.wf(),
        0 <= end <= comp.buffer@.len(),
    ensures
        table_of_renderings(dict, comp, table_upto(dict, comp, end)),
        table_upto(dict, comp, end + 1) == relax_all(
            table_upto(dict, comp, end),
            ending_at(all_intervals(dict, comp), end),
        ),
        forall|k: int|
            0 <= k <= comp.buffer@.len() && k != end ==> (#[trigger] table_upto(
                dict,
                comp,
                end + 1,
            )[k]) == table_upto(dict, comp, end)[k],
        path_score(table_upto(dict, comp, end + 1)[end]) >= path_score(
            table_upto(dict, comp, end)[end],
        ),
        forall|m: int|
            0 <= m < ending_at(all_intervals(dict, comp), end).len() && (#[trigger] ending_at(
                all_intervals(dict, comp),
                end,
            )[m]).start < end ==> path_score(table_upto(dict, comp, end + 1)[end]) >= path_score(
                table_upto(dict, comp, end)[ending_at(
                    all_intervals(dict, comp),
                    end,
                )[m].start as int].push(ending_at(all_intervals(dict, comp), end)[m]),
            ),
{
    let len = comp.buffer@.len() as int;
    let all = all_intervals(dict, comp);
    let empty = Seq::new((len + 1) as nat, |i: int| Seq::<PossibleIntervalView>::empty());
    let bucket = ending_at(all, end);
    lemma_intervals_are_renderings(dict, comp, len + 1);
    lemma_sorted_renderings(dict, comp, all, end);
    lemma_relax_all_renderings(dict, comp, empty, sorted_by_end(all, end));
    lemma_ending_at_renderings(dict, comp, all, end);
    lemma_ending_at_ends(all, end);
    lemma_relax_all_in_turn(empty, sorted_by_end(all, end), bucket);
    lemma_relax_at_one_end(dict, comp, table_upto(dict, comp, end), bucket, end);
}

/// The best path cannot be bettered by one step. For every rendering that
/// spans a position, the path that the search holds for its end scores no
/// lower than the path that the search holds for its start with the
/// rendering added; the best path is what the search holds for the end of
/// the buffer. In that sense `convert` hands out the top-scoring choice. A
/// path that the search gave up at an earlier position may still score
/// higher as a whole.
pub proof fn best_path_withstands_every_step<D: Dictionary>(
    dict: &D,
    comp: &Composition,
    interval: PossibleIntervalView,
)
    requires
        comp.wf(),
        is_rendering(dict, comp, interval),
        interval.start < interval.end,
    ensures
        search_table(dict, comp)[comp.buffer@.len() as int] == chosen_path(dict, comp),
        path_score(search_table(dict, comp)[interval.end as int]) >= path_score(
            search_table(dict, comp)[interval.start as int].push(interval),
        ),
{
    let len = comp.buffer@.len() as int;
    let end = interval.end as int;
    let start = interval.start as int;
    let all = all_intervals(dict, comp);
    let bucket = ending_at(all, end);
    intervals_hold_every_rendering(dict, comp, interval);
    lemma_ending_at_holds(all, interval);
    let m = choose|m: int| 0 <= m < bucket.len() && bucket[m] == interval;
    lemma_table_step(dict, comp, end);
    assert(bucket[m].start < end);
    lemma_table_settles(dict, comp, end + 1, len + 1);
    lemma_table_settles(dict, comp, end, len + 1);
    assert(search_table(dict, comp)[end] == table_upto(dict, comp, end + 1)[end]);
    assert(search_table(dict, comp)[start] == table_upto(dict, comp, end)[start]);
}

/// Two paths of renderings that are handed out as the same intervals are
/// the same path.
pub proof fn lemma_renderings_told_by_intervals<D: Dictionary>(
    dict: &D,
    comp: &Composition,
    first: Seq<PossibleIntervalView>,
    second: Seq<PossibleIntervalView>,
)
    requires
        all_renderings(dict, comp, first),
        all_renderings(dict, comp, second),
        to_intervals(first) == to_intervals(second),
    ensures
        first == second,
{
    assert(first.len() == to_intervals(first).len());
    assert(second.len() == to_intervals(second).len());
    assert forall|i: int| 0 <= i < first.len() implies first[i] == second[i] by {
        assert(to_intervals(first)[i] == to_interval(first[i]));
        assert(to_intervals(second)[i] == to_interval(second[i]));
        assert(is_rendering(dict, comp, first[i]));
        assert(is_rendering(dict, comp, second[i]));
    }
    assert(first =~= second);
}

/// When `convert` hands out the first alternative: in a composition
/// without glues that has a segmentation, exactly where the search ends
/// with the path that is ranked first. The search and the ranking go
/// different ways, so this need not be so: the search may keep a path that
/// trimming drops as a refinement of another.
pub proof fn convert_is_first_alternative<D: Dictionary>(dict: &D, comp: &Composition)
    requires
        comp.wf(),
        comp.glues@.len() == 0,
        comp.buffer@.len() > 0,
        ranked_paths(dict, comp).len() > 0,
    ensures
        (convert_spec(dict, comp) == convert_next_spec(dict, comp, 0)) <==> chosen_path(dict, comp)
            == ranked_paths(dict, comp)[0],
{
    let path = chosen_path(dict, comp);
    let first = ranked_paths(dict, comp)[0];
    lemma_no_glue_joins_nothing(comp.glues@, to_intervals(path));
    lemma_no_glue_joins_nothing(comp.glues@, to_intervals(first));
    if convert_spec(dict, comp) == convert_next_spec(dict, comp, 0) {
        lemma_best_path_renderings(dict, comp);
        lemma_ranked_are_segmentations(dict, comp);
        assert(is_segmentation(dict, comp, first, 0, comp.buffer@.len() as int));
        lemma_renderings_told_by_intervals(dict, comp, path, first);
    }
}

} // verus!
