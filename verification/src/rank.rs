//! Ranking of scored chunks: the floor filter and the order of the results.

use vstd::prelude::*;

verus! {

/// The bits of a score without its sign.
pub open spec fn magnitude(bits: u32) -> int {
    if bits >= 0x8000_0000 {
        bits - 0x8000_0000
    } else {
        bits as int
    }
}

/// Whether a score is not a number: the similarity of a vector without
/// length is of this kind.
pub open spec fn is_nan(bits: u32) -> bool {
    magnitude(bits) > 0x7f80_0000
}

/// The place of a score that is a number among all such scores: a greater
/// number has a greater key, and the two zeros share one.
pub open spec fn order_key(bits: u32) -> int {
    if bits >= 0x8000_0000 {
        -magnitude(bits)
    } else {
        magnitude(bits)
    }
}

/// Whether score `a` is strictly greater than score `b`. A score that is not
/// a number is greater than nothing, and nothing is greater than it.
pub open spec fn exceeds(a: u32, b: u32) -> bool {
    !is_nan(a) && !is_nan(b) && order_key(a) > order_key(b)
}

/// The order key of a score, or `None` for a score that is not a number.
pub fn similarity_key(bits: u32) -> (key: Option<i64>)
    ensures
        is_nan(bits) <==> key is None,
        key matches Some(k) ==> k == order_key(bits),
{
    let negative = bits >= 0x8000_0000;
    let mag: u32 = if negative { bits - 0x8000_0000 } else { bits };
    if mag > 0x7f80_0000 {
        None
    } else if negative {
        Some(-(mag as i64))
    } else {
        Some(mag as i64)
    }
}

/// Whether `similarity` passes the floor: it must be strictly greater.
pub fn above_floor(similarity: u32, floor: u32) -> (out: bool)
    ensures
        out == exceeds(similarity, floor),
{
    match (similarity_key(similarity), similarity_key(floor)) {
        (Some(s), Some(f)) => s > f,
        _ => false,
    }
}

/// A chunk of a file with its similarity to the query: the file's path, the
/// chunk's start line and text, the dimension of its vector, and the
/// similarity as the bits of an IEEE 754 single-precision number.
pub struct ScoredChunk {
    pub file: String,
    pub line: usize,
    pub chunk: String,
    pub dimension: usize,
    pub similarity: u32,
}

/// What a [`ScoredChunk`] holds, as mathematical values.
pub struct ScoredView {
    pub file: Seq<char>,
    pub line: usize,
    pub chunk: Seq<char>,
    pub dimension: usize,
    pub similarity: u32,
}

impl View for ScoredChunk {
    type V = ScoredView;

    open spec fn view(&self) -> ScoredView {
        ScoredView {
            file: self.file@,
            line: self.line,
            chunk: self.chunk@,
            dimension: self.dimension,
            similarity: self.similarity,
        }
    }
}

/// The views of a sequence of scored chunks.
pub open spec fn scored_views(candidates: Seq<ScoredChunk>) -> Seq<ScoredView> {
    candidates.map_values(|c: ScoredChunk| c@)
}

/// One line of the result list.
pub struct PrintableChunk {
    pub file: String,
    pub chunk: String,
    pub line: usize,
    pub similarity: u32,
}

/// What a [`PrintableChunk`] holds, as mathematical values.
pub struct PrintableView {
    pub file: Seq<char>,
    pub chunk: Seq<char>,
    pub line: usize,
    pub similarity: u32,
}

impl View for PrintableChunk {
    type V = PrintableView;

    open spec fn view(&self) -> PrintableView {
        PrintableView {
            file: self.file@,
            chunk: self.chunk@,
            line: self.line,
            similarity: self.similarity,
        }
    }
}

/// The views of a result list.
pub open spec fn printable_views(results: Seq<PrintableChunk>) -> Seq<PrintableView> {
    results.map_values(|r: PrintableChunk| r@)
}

/// The result line that shows candidate `c`.
pub open spec fn printable(c: ScoredView) -> PrintableView {
    PrintableView { file: c.file, chunk: c.chunk, line: c.line, similarity: c.similarity }
}

/// Whether candidate `c` belongs in the results: its vector has the query's
/// dimension and its similarity is strictly above the floor.
pub open spec fn eligible(c: ScoredView, dim: nat, floor: u32) -> bool {
    c.dimension == dim && exceeds(c.similarity, floor)
}

/// Whether the candidate at position `i` is listed before the one at `j`:
/// the greater similarity first, and of two equal ones the one seen first.
pub open spec fn precedes(candidates: Seq<ScoredView>, i: int, j: int) -> bool {
    let a = order_key(candidates[i].similarity);
    let b = order_key(candidates[j].similarity);
    a > b || (a == b && i < j)
}

/// Whether `picks` lists, in ranking order, the positions of exactly the
/// eligible candidates among the first `upto`.
pub open spec fn ranks_first(
    candidates: Seq<ScoredView>,
    upto: int,
    dim: nat,
    floor: u32,
    picks: Seq<int>,
) -> bool {
    &&& forall|k: int|
        0 <= k < picks.len() ==> 0 <= #[trigger] picks[k] < upto && eligible(
            candidates[picks[k]],
            dim,
            floor,
        )
    &&& forall|i: int|
        0 <= i < upto && eligible(#[trigger] candidates[i], dim, floor) ==> picks.contains(i)
    &&& forall|p: int, q: int|
        0 <= p < q < picks.len() ==> precedes(candidates, #[trigger] picks[p], #[trigger] picks[q])
}

/// Whether `picks` is a ranking of `candidates`: the positions of exactly
/// the eligible candidates, by descending similarity, equal ones in the order
/// in which they were seen.
pub open spec fn is_ranking(candidates: Seq<ScoredView>, dim: nat, floor: u32, picks: Seq<int>) -> bool {
    ranks_first(candidates, candidates.len() as int, dim, floor, picks)
}

/// The ranking of `candidates`. There is one, and one only.
pub open spec fn ranking(candidates: Seq<ScoredView>, dim: nat, floor: u32) -> Seq<int> {
    choose|picks: Seq<int>| is_ranking(candidates, dim, floor, picks)
}

/// The result lines for the candidates at `picks`.
pub open spec fn results_at(candidates: Seq<ScoredView>, picks: Seq<int>) -> Seq<PrintableView> {
    Seq::new(picks.len(), |k: int| printable(candidates[picks[k]]))
}

/// The results of ranking `candidates`: the result lines of the eligible
/// candidates, in ranking order.
pub open spec fn ranked(candidates: Seq<ScoredView>, dim: nat, floor: u32) -> Seq<PrintableView> {
    results_at(candidates, ranking(candidates, dim, floor))
}

spec fn as_ints(order: Seq<usize>) -> Seq<int> {
    Seq::new(order.len(), |k: int| order[k] as int)
}

/// Whether every position in `list` is one of a candidate whose similarity
/// is a number.
spec fn comparable(candidates: Seq<ScoredView>, list: Seq<usize>) -> bool {
    forall|k: int|
        0 <= k < list.len() ==> (#[trigger] list[k]) < candidates.len() && !is_nan(
            candidates[list[k] as int].similarity,
        )
}

/// Whether `list` is in ranking order.
spec fn ordered(candidates: Seq<ScoredView>, list: Seq<usize>) -> bool {
    forall|p: int, q: int|
        0 <= p < q < list.len() ==> precedes(
            candidates,
            #[trigger] list[p] as int,
            #[trigger] list[q] as int,
        )
}

/// Whether no position occurs in both lists.
spec fn apart(left: Seq<usize>, right: Seq<usize>) -> bool {
    forall|p: int, q: int|
        0 <= p < left.len() && 0 <= q < right.len() ==> #[trigger] left[p] != #[trigger] right[q]
}

/// Whether `out` holds the positions of `left` and of `right`, and no other.
spec fn joins(out: Seq<usize>, left: Seq<usize>, right: Seq<usize>) -> bool {
    &&& forall|k: int|
        0 <= k < out.len() ==> left.contains(#[trigger] out[k]) || right.contains(out[k])
    &&& forall|p: int| 0 <= p < left.len() ==> out.contains(#[trigger] left[p])
    &&& forall|q: int| 0 <= q < right.len() ==> out.contains(#[trigger] right[q])
}

/// Tells whether the candidate at `a` is listed before the one at `b`.
fn comes_before(candidates: &Vec<ScoredChunk>, a: usize, b: usize) -> (out: bool)
    requires
        a < candidates.len(),
        b < candidates.len(),
        !is_nan(candidates[a as int].similarity),
        !is_nan(candidates[b as int].similarity),
    ensures
        out == precedes(scored_views(candidates@), a as int, b as int),
{
    assert(scored_views(candidates@)[a as int] == candidates@[a as int]@);
    assert(scored_views(candidates@)[b as int] == candidates@[b as int]@);
    let first = similarity_key(candidates[a].similarity).unwrap();
    let second = similarity_key(candidates[b].similarity).unwrap();
    first > second || (first == second && a < b)
}

/// Merges two lists in ranking order into one.
fn merge(candidates: &Vec<ScoredChunk>, left: &Vec<usize>, right: &Vec<usize>) -> (out: Vec<usize>)
    requires
        comparable(scored_views(candidates@), left@),
        comparable(scored_views(candidates@), right@),
        ordered(scored_views(candidates@), left@),
        ordered(scored_views(candidates@), right@),
        apart(left@, right@),
    ensures
        out.len() == left.len() + right.len(),
        ordered(scored_views(candidates@), out@),
        joins(out@, left@, right@),
{
    let ghost views = scored_views(candidates@);
    let mut out: Vec<usize> = Vec::new();
    let mut i: usize = 0;
    let mut j: usize = 0;
    while i < left.len() || j < right.len()
        invariant
            i <= left.len(),
            j <= right.len(),
            out.len() == i + j,
            views == scored_views(candidates@),
            comparable(views, left@),
            comparable(views, right@),
            ordered(views, left@),
            ordered(views, right@),
            apart(left@, right@),
            ordered(views, out@),
            forall|k: int, p: int|
                0 <= k < out.len() && i <= p < left.len() ==> precedes(
                    views,
                    #[trigger] out@[k] as int,
                    #[trigger] left@[p] as int,
                ),
            forall|k: int, q: int|
                0 <= k < out.len() && j <= q < right.len() ==> precedes(
                    views,
                    #[trigger] out@[k] as int,
                    #[trigger] right@[q] as int,
                ),
            joins(out@, left@.take(i as int), right@.take(j as int)),
        decreases left.len() - i + (right.len() - j),
    {
        let ghost before = out@;
        let from_left = if i >= left.len() {
            false
        } else if j >= right.len() {
            true
        } else {
            assert(left@[i as int] < candidates.len());
            assert(right@[j as int] < candidates.len());
            assert(views[left@[i as int] as int] == candidates@[left@[i as int] as int]@);
            assert(views[right@[j as int] as int] == candidates@[right@[j as int] as int]@);
            comes_before(candidates, left[i], right[j])
        };
        if from_left {
            let taken = left[i];
            out.push(taken);
            proof {
                assert forall|p: int, q: int| 0 <= p < q < out@.len() implies precedes(
                    views,
                    #[trigger] out@[p] as int,
                    #[trigger] out@[q] as int,
                ) by {
                    if q < before.len() {
                        assert(out@[p] == before[p] && out@[q] == before[q]);
                    } else {
                        assert(out@[p] == before[p]);
                        assert(out@[q] == left@[i as int]);
                    }
                }
                assert forall|k: int, p: int|
                    0 <= k < out@.len() && i + 1 <= p < left.len() implies precedes(
                    views,
                    #[trigger] out@[k] as int,
                    #[trigger] left@[p] as int,
                ) by {
                    if k < before.len() {
                        assert(out@[k] == before[k]);
                    } else {
                        assert(out@[k] == left@[i as int]);
                    }
                }
                assert forall|k: int, q: int|
                    0 <= k < out@.len() && j <= q < right.len() implies precedes(
                    views,
                    #[trigger] out@[k] as int,
                    #[trigger] right@[q] as int,
                ) by {
                    if k < before.len() {
                        assert(out@[k] == before[k]);
                    } else {
                        assert(out@[k] == left@[i as int]);
                        assert(precedes(views, left@[i as int] as int, right@[j as int] as int));
                        if q > j {
                            assert(precedes(views, right@[j as int] as int, right@[q] as int));
                        }
                    }
                }
                lemma_joins_left(before, left@, right@, i as int, j as int, out@);
            }
            i = i + 1;
        } else {
            let taken = right[j];
            out.push(taken);
            proof {
                if i < left.len() {
                    assert(left@[i as int] != right@[j as int]);
                    assert(precedes(views, right@[j as int] as int, left@[i as int] as int));
                }
                assert forall|p: int, q: int| 0 <= p < q < out@.len() implies precedes(
                    views,
                    #[trigger] out@[p] as int,
                    #[trigger] out@[q] as int,
                ) by {
                    if q < before.len() {
                        assert(out@[p] == before[p] && out@[q] == before[q]);
                    } else {
                        assert(out@[p] == before[p]);
                        assert(out@[q] == right@[j as int]);
                    }
                }
                assert forall|k: int, q: int|
                    0 <= k < out@.len() && j + 1 <= q < right.len() implies precedes(
                    views,
                    #[trigger] out@[k] as int,
                    #[trigger] right@[q] as int,
                ) by {
                    if k < before.len() {
                        assert(out@[k] == before[k]);
                    } else {
                        assert(out@[k] == right@[j as int]);
                    }
                }
                assert forall|k: int, p: int|
                    0 <= k < out@.len() && i <= p < left.len() implies precedes(
                    views,
                    #[trigger] out@[k] as int,
                    #[trigger] left@[p] as int,
                ) by {
                    if k < before.len() {
                        assert(out@[k] == before[k]);
                    } else {
                        assert(out@[k] == right@[j as int]);
                        if p > i {
                            assert(precedes(views, left@[i as int] as int, left@[p] as int));
                        }
                    }
                }
                lemma_joins_left(before, right@, left@, j as int, i as int, out@);
                lemma_joins_swap(out@, right@.take(j + 1), left@.take(i as int));
            }
            j = j + 1;
        }
    }
    proof {
        assert(left@.take(i as int) == left@);
        assert(right@.take(j as int) == right@);
    }
    out
}

/// Taking the next position of `first` keeps the joined list the join of what
/// was taken.
proof fn lemma_joins_left(
    before: Seq<usize>,
    first: Seq<usize>,
    second: Seq<usize>,
    i: int,
    j: int,
    after: Seq<usize>,
)
    requires
        0 <= i < first.len(),
        0 <= j <= second.len(),
        joins(before, first.take(i), second.take(j)) || joins(
            before,
            second.take(j),
            first.take(i),
        ),
        after == before.push(first[i]),
    ensures
        joins(after, first.take(i + 1), second.take(j)),
{
    let a = first.take(i);
    let b = second.take(j);
    let a2 = first.take(i + 1);
    assert(a2[i] == first[i]);
    assert forall|k: int| 0 <= k < after.len() implies a2.contains(#[trigger] after[k])
        || b.contains(after[k]) by {
        if k < before.len() {
            assert(after[k] == before[k]);
            if a.contains(before[k]) {
                let p = choose|p: int| 0 <= p < a.len() && a[p] == before[k];
                assert(a2[p] == before[k]);
            }
        } else {
            assert(after[k] == a2[i]);
        }
    }
    assert forall|p: int| 0 <= p < a2.len() implies after.contains(#[trigger] a2[p]) by {
        if p < i {
            assert(a[p] == a2[p]);
            assert(before.contains(a[p]));
            let k = choose|k: int| 0 <= k < before.len() && before[k] == a[p];
            assert(after[k] == a2[p]);
        } else {
            assert(after[before.len() as int] == a2[p]);
        }
    }
    assert forall|q: int| 0 <= q < b.len() implies after.contains(#[trigger] b[q]) by {
        assert(before.contains(b[q]));
        let k = choose|k: int| 0 <= k < before.len() && before[k] == b[q];
        assert(after[k] == b[q]);
    }
}

/// A join of two lists is a join of them in the other order.
proof fn lemma_joins_swap(out: Seq<usize>, first: Seq<usize>, second: Seq<usize>)
    requires
        joins(out, first, second),
    ensures
        joins(out, second, first),
{
}

/// Sorts the positions `list[lo..hi]` into ranking order.
fn sort_range(candidates: &Vec<ScoredChunk>, list: &Vec<usize>, lo: usize, hi: usize) -> (out: Vec<
    usize,
>)
    requires
        lo <= hi <= list.len(),
        comparable(scored_views(candidates@), list@),
        forall|p: int, q: int| 0 <= p < q < list.len() ==> #[trigger] list@[p] < #[trigger] list@[q],
    ensures
        out.len() == hi - lo,
        ordered(scored_views(candidates@), out@),
        joins(out@, list@.subrange(lo as int, hi as int), Seq::empty()),
    decreases hi - lo,
{
    let ghost views = scored_views(candidates@);
    let ghost part = list@.subrange(lo as int, hi as int);
    if hi - lo == 0 {
        Vec::new()
    } else if hi - lo == 1 {
        let mut out: Vec<usize> = Vec::new();
        out.push(list[lo]);
        proof {
            assert(part[0] == list@[lo as int]);
            assert(out@[0] == part[0]);
        }
        out
    } else {
        let mid = lo + (hi - lo) / 2;
        let left = sort_range(candidates, list, lo, mid);
        let right = sort_range(candidates, list, mid, hi);
        let ghost low = list@.subrange(lo as int, mid as int);
        let ghost high = list@.subrange(mid as int, hi as int);
        proof {
            assert forall|k: int| 0 <= k < left@.len() implies (#[trigger] left@[k])
                < views.len() && !is_nan(views[left@[k] as int].similarity) by {
                assert(low.contains(left@[k]));
                let p = choose|p: int| 0 <= p < low.len() && low[p] == left@[k];
                assert(list@[lo + p] == left@[k]);
            }
            assert forall|k: int| 0 <= k < right@.len() implies (#[trigger] right@[k])
                < views.len() && !is_nan(views[right@[k] as int].similarity) by {
                assert(high.contains(right@[k]));
                let p = choose|p: int| 0 <= p < high.len() && high[p] == right@[k];
                assert(list@[mid + p] == right@[k]);
            }
            assert forall|p: int, q: int|
                0 <= p < left@.len() && 0 <= q < right@.len() implies #[trigger] left@[p]
                != #[trigger] right@[q] by {
                assert(low.contains(left@[p]));
                assert(high.contains(right@[q]));
                let a = choose|a: int| 0 <= a < low.len() && low[a] == left@[p];
                let b = choose|b: int| 0 <= b < high.len() && high[b] == right@[q];
                assert(list@[lo + a] < list@[mid + b]);
            }
        }
        let out = merge(candidates, &left, &right);
        proof {
            assert forall|k: int| 0 <= k < out@.len() implies part.contains(#[trigger] out@[k]) by {
                if left@.contains(out@[k]) {
                    assert(low.contains(out@[k]));
                    let a = choose|a: int| 0 <= a < low.len() && low[a] == out@[k];
                    assert(part[a] == out@[k]);
                } else {
                    assert(right@.contains(out@[k]));
                    assert(high.contains(out@[k]));
                    let b = choose|b: int| 0 <= b < high.len() && high[b] == out@[k];
                    assert(part[mid - lo + b] == out@[k]);
                }
            }
            assert forall|p: int| 0 <= p < part.len() implies out@.contains(#[trigger] part[p]) by {
                if p < mid - lo {
                    assert(low[p] == part[p]);
                    assert(left@.contains(low[p]));
                    let k = choose|k: int| 0 <= k < left@.len() && left@[k] == part[p];
                    assert(out@.contains(left@[k]));
                } else {
                    assert(high[p - (mid - lo)] == part[p]);
                    assert(right@.contains(high[p - (mid - lo)]));
                    let k = choose|k: int| 0 <= k < right@.len() && right@[k] == part[p];
                    assert(out@.contains(right@[k]));
                }
            }
        }
        out
    }
}

/// Placing a newly seen eligible candidate behind every pick that is not
/// below it keeps the picks a ranking.
proof fn lemma_place(
    candidates: Seq<ScoredView>,
    i: int,
    dim: nat,
    floor: u32,
    picks: Seq<int>,
    pos: int,
)
    requires
        0 <= i < candidates.len(),
        ranks_first(candidates, i, dim, floor, picks),
        eligible(candidates[i], dim, floor),
        0 <= pos <= picks.len(),
        forall|q: int|
            pos <= q < picks.len() ==> order_key(candidates[#[trigger] picks[q]].similarity)
                < order_key(candidates[i].similarity),
        pos > 0 ==> order_key(candidates[picks[pos - 1]].similarity) >= order_key(
            candidates[i].similarity,
        ),
    ensures
        ranks_first(candidates, i + 1, dim, floor, picks.insert(pos, i)),
{
    let placed = picks.insert(pos, i);
    assert forall|k: int| 0 <= k < placed.len() implies 0 <= #[trigger] placed[k] < i + 1
        && eligible(candidates[placed[k]], dim, floor) by {
        if k < pos {
            assert(placed[k] == picks[k]);
        } else if k > pos {
            assert(placed[k] == picks[k - 1]);
        }
    }
    assert forall|j: int|
        0 <= j < i + 1 && eligible(#[trigger] candidates[j], dim, floor) implies placed.contains(
        j,
    ) by {
        if j == i {
            assert(placed[pos] == i);
        } else {
            assert(picks.contains(j));
            let k = choose|k: int| 0 <= k < picks.len() && picks[k] == j;
            if k < pos {
                assert(placed[k] == j);
            } else {
                assert(placed[k + 1] == j);
            }
        }
    }
    assert forall|p: int, q: int| 0 <= p < q < placed.len() implies precedes(
        candidates,
        #[trigger] placed[p],
        #[trigger] placed[q],
    ) by {
        if q < pos {
            assert(placed[p] == picks[p] && placed[q] == picks[q]);
        } else if q == pos {
            assert(placed[p] == picks[p]);
            if p < pos - 1 {
                assert(precedes(candidates, picks[p], picks[pos - 1]));
            }
        } else if p == pos {
            assert(placed[q] == picks[q - 1]);
        } else if p < pos {
            assert(placed[p] == picks[p] && placed[q] == picks[q - 1]);
        } else {
            assert(placed[p] == picks[p - 1] && placed[q] == picks[q - 1]);
        }
    }
}

/// Finds where a newly seen candidate goes among the picks: behind every
/// pick that is not below it.
proof fn lemma_slot(
    candidates: Seq<ScoredView>,
    i: int,
    dim: nat,
    floor: u32,
    picks: Seq<int>,
    bound: int,
) -> (pos: int)
    requires
        0 <= i < candidates.len(),
        ranks_first(candidates, i, dim, floor, picks),
        0 <= bound <= picks.len(),
        forall|q: int|
            bound <= q < picks.len() ==> order_key(candidates[#[trigger] picks[q]].similarity)
                < order_key(candidates[i].similarity),
    ensures
        0 <= pos <= picks.len(),
        forall|q: int|
            pos <= q < picks.len() ==> order_key(candidates[#[trigger] picks[q]].similarity)
                < order_key(candidates[i].similarity),
        pos > 0 ==> order_key(candidates[picks[pos - 1]].similarity) >= order_key(
            candidates[i].similarity,
        ),
    decreases bound,
{
    if bound == 0 || order_key(candidates[picks[bound - 1]].similarity) >= order_key(
        candidates[i].similarity,
    ) {
        bound
    } else {
        lemma_slot(candidates, i, dim, floor, picks, bound - 1)
    }
}

/// The first `upto` candidates have a ranking.
proof fn lemma_ranks_first_exists(
    candidates: Seq<ScoredView>,
    dim: nat,
    floor: u32,
    upto: int,
) -> (picks: Seq<int>)
    requires
        0 <= upto <= candidates.len(),
    ensures
        ranks_first(candidates, upto, dim, floor, picks),
    decreases upto,
{
    if upto == 0 {
        Seq::empty()
    } else {
        let before = lemma_ranks_first_exists(candidates, dim, floor, upto - 1);
        if eligible(candidates[upto - 1], dim, floor) {
            let pos = lemma_slot(candidates, upto - 1, dim, floor, before, before.len() as int);
            lemma_place(candidates, upto - 1, dim, floor, before, pos);
            before.insert(pos, upto - 1)
        } else {
            assert forall|j: int|
                0 <= j < upto && eligible(
                    #[trigger] candidates[j],
                    dim,
                    floor,
                ) implies before.contains(j) by {
                assert(j != upto - 1);
            }
            before
        }
    }
}

/// Every list of candidates has a ranking: [`ranking`] is one.
pub proof fn lemma_ranking_exists(candidates: Seq<ScoredView>, dim: nat, floor: u32)
    ensures
        is_ranking(candidates, dim, floor, ranking(candidates, dim, floor)),
{
    let picks = lemma_ranks_first_exists(candidates, dim, floor, candidates.len() as int);
    assert(is_ranking(candidates, dim, floor, picks));
}

/// The results are the eligible candidates, each once: a candidate is
/// listed if, and only if, its vector has the query's dimension and its
/// similarity is strictly above the floor.
pub proof fn lemma_results_are_the_eligible(candidates: Seq<ScoredView>, dim: nat, floor: u32)
    ensures
        forall|i: int|
            ranking(candidates, dim, floor).contains(i) <==> 0 <= i < candidates.len()
                && eligible(candidates[i], dim, floor),
        forall|p: int, q: int|
            0 <= p < q < ranking(candidates, dim, floor).len() ==> ranking(
                candidates,
                dim,
                floor,
            )[p] != ranking(candidates, dim, floor)[q],
{
    let picks = ranking(candidates, dim, floor);
    lemma_ranking_exists(candidates, dim, floor);
    assert forall|i: int| picks.contains(i) <==> 0 <= i < candidates.len() && eligible(
        candidates[i],
        dim,
        floor,
    ) by {
        if picks.contains(i) {
            let k = choose|k: int| 0 <= k < picks.len() && picks[k] == i;
            assert(eligible(candidates[picks[k]], dim, floor));
        }
    }
    assert forall|p: int, q: int| 0 <= p < q < picks.len() implies picks[p] != picks[q] by {
        assert(precedes(candidates, picks[p], picks[q]));
    }
}

/// No result is at or below the floor: every listed similarity is strictly
/// above it.
pub proof fn lemma_results_above_floor(candidates: Seq<ScoredView>, dim: nat, floor: u32)
    ensures
        forall|k: int|
            0 <= k < ranked(candidates, dim, floor).len() ==> exceeds(
                (#[trigger] ranked(candidates, dim, floor)[k]).similarity,
                floor,
            ),
{
    let picks = ranking(candidates, dim, floor);
    lemma_ranking_exists(candidates, dim, floor);
    assert forall|k: int| 0 <= k < ranked(candidates, dim, floor).len() implies exceeds(
        (#[trigger] ranked(candidates, dim, floor)[k]).similarity,
        floor,
    ) by {
        assert(eligible(candidates[picks[k]], dim, floor));
    }
}

/// The results do not increase in similarity, and of two results of equal
/// similarity the one whose candidate was seen first comes first.
pub proof fn lemma_results_descending(candidates: Seq<ScoredView>, dim: nat, floor: u32)
    ensures
        forall|p: int, q: int|
            #![trigger ranked(candidates, dim, floor)[p], ranked(candidates, dim, floor)[q]]
            0 <= p < q < ranked(candidates, dim, floor).len() ==> {
                let a = order_key(ranked(candidates, dim, floor)[p].similarity);
                let b = order_key(ranked(candidates, dim, floor)[q].similarity);
                a >= b && (a == b ==> ranking(candidates, dim, floor)[p] < ranking(
                    candidates,
                    dim,
                    floor,
                )[q])
            },
{
    let picks = ranking(candidates, dim, floor);
    lemma_ranking_exists(candidates, dim, floor);
    assert forall|p: int, q: int|
        #![trigger ranked(candidates, dim, floor)[p], ranked(candidates, dim, floor)[q]]
        0 <= p < q < ranked(candidates, dim, floor).len() implies {
        let a = order_key(ranked(candidates, dim, floor)[p].similarity);
        let b = order_key(ranked(candidates, dim, floor)[q].similarity);
        a >= b && (a == b ==> picks[p] < picks[q])
    } by {
        assert(precedes(candidates, picks[p], picks[q]));
    }
}

/// Two lists in ranking order that hold the same positions are the same
/// list.
proof fn lemma_same_order(candidates: Seq<ScoredView>, a: Seq<int>, b: Seq<int>)
    requires
        forall|p: int, q: int|
            0 <= p < q < a.len() ==> precedes(candidates, #[trigger] a[p], #[trigger] a[q]),
        forall|p: int, q: int|
            0 <= p < q < b.len() ==> precedes(candidates, #[trigger] b[p], #[trigger] b[q]),
        forall|x: int| a.contains(x) <==> b.contains(x),
    ensures
        a == b,
    decreases a.len(),
{
    if a.len() == 0 {
        if b.len() > 0 {
            assert(b.contains(b[0]));
        }
        assert(a =~= b);
    } else {
        assert(a.contains(a[0]));
        assert(b.contains(a[0]));
        let j = choose|j: int| 0 <= j < b.len() && b[j] == a[0];
        assert(b.contains(b[0]));
        assert(a.contains(b[0]));
        let i = choose|i: int| 0 <= i < a.len() && a[i] == b[0];
        if j > 0 {
            assert(precedes(candidates, b[0], b[j]));
            if i > 0 {
                assert(precedes(candidates, a[0], a[i]));
            }
        }
        assert(a[0] == b[0]);
        let ta = a.drop_first();
        let tb = b.drop_first();
        assert forall|p: int, q: int| 0 <= p < q < ta.len() implies precedes(
            candidates,
            #[trigger] ta[p],
            #[trigger] ta[q],
        ) by {
            assert(ta[p] == a[p + 1] && ta[q] == a[q + 1]);
        }
        assert forall|p: int, q: int| 0 <= p < q < tb.len() implies precedes(
            candidates,
            #[trigger] tb[p],
            #[trigger] tb[q],
        ) by {
            assert(tb[p] == b[p + 1] && tb[q] == b[q + 1]);
        }
        assert forall|x: int| ta.contains(x) <==> tb.contains(x) by {
            if ta.contains(x) {
                let k = choose|k: int| 0 <= k < ta.len() && ta[k] == x;
                assert(a[k + 1] == x);
                assert(precedes(candidates, a[0], a[k + 1]));
                assert(b.contains(x));
                let m = choose|m: int| 0 <= m < b.len() && b[m] == x;
                assert(m > 0);
                assert(tb[m - 1] == x);
            }
            if tb.contains(x) {
                let k = choose|k: int| 0 <= k < tb.len() && tb[k] == x;
                assert(b[k + 1] == x);
                assert(precedes(candidates, b[0], b[k + 1]));
                assert(a.contains(x));
                let m = choose|m: int| 0 <= m < a.len() && a[m] == x;
                assert(m > 0);
                assert(ta[m - 1] == x);
            }
        }
        lemma_same_order(candidates, ta, tb);
        assert(a =~= seq![a[0]] + ta);
        assert(b =~= seq![b[0]] + tb);
    }
}

/// A list of candidates has one ranking only, and so one list of results:
/// the floor, the order by similarity and the order of arrival among equals
/// leave no choice.
pub proof fn lemma_ranking_unique(
    candidates: Seq<ScoredView>,
    dim: nat,
    floor: u32,
    picks: Seq<int>,
)
    requires
        is_ranking(candidates, dim, floor, picks),
    ensures
        picks == ranking(candidates, dim, floor),
        results_at(candidates, picks) == ranked(candidates, dim, floor),
{
    let other = ranking(candidates, dim, floor);
    lemma_ranking_exists(candidates, dim, floor);
    assert forall|x: int| picks.contains(x) <==> other.contains(x) by {
        if picks.contains(x) {
            let k = choose|k: int| 0 <= k < picks.len() && picks[k] == x;
            assert(eligible(candidates[picks[k]], dim, floor));
        }
        if other.contains(x) {
            let k = choose|k: int| 0 <= k < other.len() && other[k] == x;
            assert(eligible(candidates[other[k]], dim, floor));
        }
    }
    lemma_same_order(candidates, picks, other);
}

/// Ranks `candidates` against a query of dimension `query_dim`.
///
/// The result lists exactly the candidates whose vector has the query's
/// dimension and whose similarity is strictly above `floor`, by descending
/// similarity; candidates of equal similarity keep the order in which they
/// were given. A candidate of another dimension, or with a similarity that is
/// not a number, is left out.
pub fn rank(query_dim: usize, candidates: &Vec<ScoredChunk>, floor: u32) -> (out: Vec<PrintableChunk>)
    ensures
        printable_views(out@) == ranked(scored_views(candidates@), query_dim as nat, floor),
{
    let ghost views = scored_views(candidates@);
    let n = candidates.len();
    let mut picked: Vec<usize> = Vec::new();
    let mut i: usize = 0;
    while i < n
        invariant
            i <= n,
            n == candidates.len(),
            views == scored_views(candidates@),
            forall|k: int|
                0 <= k < picked.len() ==> (#[trigger] picked@[k]) < i && eligible(
                    views[picked@[k] as int],
                    query_dim as nat,
                    floor,
                ),
            forall|p: int, q: int|
                0 <= p < q < picked.len() ==> #[trigger] picked@[p] < #[trigger] picked@[q],
            forall|j: int|
                0 <= j < i && eligible(#[trigger] views[j], query_dim as nat, floor)
                    ==> picked@.contains(j as usize),
        decreases n - i,
    {
        let candidate = &candidates[i];
        let ghost before = picked@;
        assert(views[i as int] == candidate@);
        if candidate.dimension == query_dim && above_floor(candidate.similarity, floor) {
            picked.push(i);
            proof {
                assert forall|j: int|
                    0 <= j < i + 1 && eligible(
                        #[trigger] views[j],
                        query_dim as nat,
                        floor,
                    ) implies picked@.contains(j as usize) by {
                    if j < i {
                        let k = choose|k: int| 0 <= k < before.len() && before[k] == j as usize;
                        assert(picked@[k] == j as usize);
                    } else {
                        assert(picked@[before.len() as int] == i);
                    }
                }
            }
        }
        i = i + 1;
    }
    let order = sort_range(candidates, &picked, 0, picked.len());
    proof {
        let picks = as_ints(order@);
        let all = picked@.subrange(0, picked.len() as int);
        assert(all == picked@);
        assert forall|k: int| 0 <= k < picks.len() implies 0 <= #[trigger] picks[k] < n
            && eligible(views[picks[k]], query_dim as nat, floor) by {
            assert(picked@.contains(order@[k]));
            let p = choose|p: int| 0 <= p < picked@.len() && picked@[p] == order@[k];
            assert(picked@[p] < n);
        }
        assert forall|j: int|
            0 <= j < n && eligible(
                #[trigger] views[j],
                query_dim as nat,
                floor,
            ) implies picks.contains(j) by {
            assert(picked@.contains(j as usize));
            let p = choose|p: int| 0 <= p < picked@.len() && picked@[p] == j as usize;
            assert(order@.contains(picked@[p]));
            let k = choose|k: int| 0 <= k < order@.len() && order@[k] == j as usize;
            assert(picks[k] == j);
        }
        assert forall|p: int, q: int| 0 <= p < q < picks.len() implies precedes(
            views,
            #[trigger] picks[p],
            #[trigger] picks[q],
        ) by {
            assert(precedes(views, order@[p] as int, order@[q] as int));
        }
        assert(is_ranking(views, query_dim as nat, floor, picks));
    }
    let mut out: Vec<PrintableChunk> = Vec::new();
    let mut k: usize = 0;
    while k < order.len()
        invariant
            k <= order.len(),
            n == candidates.len(),
            views == scored_views(candidates@),
            is_ranking(views, query_dim as nat, floor, as_ints(order@)),
            out.len() == k,
            forall|j: int|
                0 <= j < k ==> (#[trigger] out[j])@ == printable(views[as_ints(order@)[j]]),
        decreases order.len() - k,
    {
        assert(0 <= as_ints(order@)[k as int] < n);
        let candidate = &candidates[order[k]];
        assert(views[order[k as int] as int] == candidate@);
        out.push(
            PrintableChunk {
                file: candidate.file.clone(),
                chunk: candidate.chunk.clone(),
                line: candidate.line,
                similarity: candidate.similarity,
            },
        );
        k = k + 1;
    }
    proof {
        let picks = as_ints(order@);
        assert(printable_views(out@) =~= results_at(views, picks));
        lemma_ranking_unique(views, query_dim as nat, floor, picks);
    }
    out
}

} // verus!
