use vstd::prelude::*;

use crate::cell::Cell;
use crate::cell::lemma_double_valid;
use crate::cell::valid_value;

verus! {

/// Type representing one slot of a line or of the board: empty, or a tile.
pub type BoardCell = Option<Cell>;

/// A slot either is empty or holds a valid tile value.
pub open spec fn slot_wf(s: BoardCell) -> bool {
    match s {
        Some(c) => valid_value(c.0),
        None => true,
    }
}

/// Every slot of the line is well formed.
pub open spec fn line_wf(line: Seq<BoardCell>) -> bool {
    forall|i: int| 0 <= i < line.len() ==> slot_wf(#[trigger] line[i])
}

/// Every value in the sequence is a valid tile value.
pub open spec fn vals_wf(vals: Seq<usize>) -> bool {
    forall|i: int| 0 <= i < vals.len() ==> valid_value(#[trigger] vals[i])
}

/// The values of the occupied slots of the line from index `i` on, in order.
pub open spec fn line_values_from(line: Seq<BoardCell>, i: int) -> Seq<usize>
    decreases line.len() - i,
{
    if i < 0 || i >= line.len() {
        Seq::empty()
    } else {
        match line[i] {
            Some(c) => seq![c.0] + line_values_from(line, i + 1),
            None => line_values_from(line, i + 1),
        }
    }
}

/// The values of the occupied slots of the line, in order.
pub open spec fn line_values(line: Seq<BoardCell>) -> Seq<usize> {
    line_values_from(line, 0)
}

/// One left-to-right merge pass over the occupied values of a line.
/// `pending` holds the last value seen whose merge partner has not yet been
/// consumed.  When the next value equals the pending one, the two become one
/// doubled value and the pending reference is cleared, so a just-merged value
/// never absorbs a third neighbor in the same pass.
pub open spec fn merge_pass(pending: Option<usize>, vals: Seq<usize>) -> Seq<usize>
    decreases vals.len(),
{
    if vals.len() == 0 {
        match pending {
            Some(p) => seq![p],
            None => Seq::empty(),
        }
    } else {
        match pending {
            None => merge_pass(Some(vals[0]), vals.skip(1)),
            Some(p) => if p == vals[0] {
                seq![(2 * p) as usize] + merge_pass(None, vals.skip(1))
            } else {
                seq![p] + merge_pass(Some(vals[0]), vals.skip(1))
            },
        }
    }
}

/// Whether the merge pass stays within `usize`: every merge it performs
/// doubles a value whose double fits.
pub open spec fn merge_pass_fits(pending: Option<usize>, vals: Seq<usize>) -> bool
    decreases vals.len(),
{
    if vals.len() == 0 {
        true
    } else {
        match pending {
            None => merge_pass_fits(Some(vals[0]), vals.skip(1)),
            Some(p) => if p == vals[0] {
                2 * p <= usize::MAX && merge_pass_fits(None, vals.skip(1))
            } else {
                merge_pass_fits(Some(vals[0]), vals.skip(1))
            },
        }
    }
}

/// The merged values of the line's occupied slots.
pub open spec fn merged_values(line: Seq<BoardCell>) -> Seq<usize> {
    merge_pass(None, line_values(line))
}

/// Whether reducing the line performs no merge that would overflow.
pub open spec fn line_fits(line: Seq<BoardCell>) -> bool {
    merge_pass_fits(None, line_values(line))
}

/// The line after one reduction toward index 0: the occupied values are
/// merged pairwise and compacted to the start, absent slots trailing.
pub open spec fn reduced(line: Seq<BoardCell>) -> Seq<BoardCell> {
    Seq::new(
        line.len(),
        |i: int|
            if i < merged_values(line).len() {
                Some(Cell(merged_values(line)[i]))
            } else {
                None
            },
    )
}

/// The mergeable pairs of the line from index `i` on: the indices of the
/// slot pairs that one merge pass combines.  `pending` holds the index and
/// value of the last occupied slot whose merge partner has not yet been
/// consumed.
pub open spec fn merge_pairs(
    line: Seq<BoardCell>,
    i: int,
    pending: Option<(int, usize)>,
) -> Seq<(int, int)>
    decreases line.len() - i,
{
    if i < 0 || i >= line.len() {
        Seq::empty()
    } else {
        match line[i] {
            None => merge_pairs(line, i + 1, pending),
            Some(c) => match pending {
                Some(p) => if p.1 == c.0 {
                    seq![(p.0, i)] + merge_pairs(line, i + 1, None)
                } else {
                    merge_pairs(line, i + 1, Some((i, c.0)))
                },
                None => merge_pairs(line, i + 1, Some((i, c.0))),
            },
        }
    }
}

/// The pairs of slot indices that one merge pass over the line combines.
pub open spec fn mergeable_pairs(line: Seq<BoardCell>) -> Seq<(int, int)> {
    merge_pairs(line, 0, None)
}

/// Whether `k` is the leading slot of one of the pairs: the slot that grows.
pub open spec fn is_merge_first(ps: Seq<(int, int)>, k: int) -> bool {
    exists|j: int| 0 <= j < ps.len() && (#[trigger] ps[j]).0 == k
}

/// Whether `k` is the trailing slot of one of the pairs: the slot that is
/// consumed.
pub open spec fn is_merge_second(ps: Seq<(int, int)>, k: int) -> bool {
    exists|j: int| 0 <= j < ps.len() && (#[trigger] ps[j]).1 == k
}

/// The line after performing the given merges in place: the leading slot of
/// each pair doubles, the trailing slot empties, everything else stays.
pub open spec fn apply_pairs(line: Seq<BoardCell>, ps: Seq<(int, int)>) -> Seq<BoardCell> {
    Seq::new(
        line.len(),
        |k: int|
            if is_merge_first(ps, k) {
                match line[k] {
                    Some(c) => Some(Cell((2 * c.0) as usize)),
                    None => line[k],
                }
            } else if is_merge_second(ps, k) {
                None
            } else {
                line[k]
            },
    )
}

/// The line compacted toward index 0: the occupied values slide to the
/// start in order, absent slots trailing.
pub open spec fn compacted(line: Seq<BoardCell>) -> Seq<BoardCell> {
    Seq::new(
        line.len(),
        |i: int|
            if i < line_values(line).len() {
                Some(Cell(line_values(line)[i]))
            } else {
                None
            },
    )
}

/// The value the pending reference carries, disregarding its slot index.
pub open spec fn pend_value(pend: Option<(int, usize)>) -> Option<usize> {
    match pend {
        Some(p) => Some(p.1),
        None => None,
    }
}

/// The first slot the scan's outcome can still touch: the pending slot if
/// one is held, else the scan position itself.
pub open spec fn scan_start(pend: Option<(int, usize)>, i: int) -> int {
    match pend {
        Some(p) => p.0,
        None => i,
    }
}

/// The scan states that can actually arise: a pending reference names an
/// occupied slot before the scan position, with nothing occupied between.
pub open spec fn pend_inv(line: Seq<BoardCell>, i: int, pend: Option<(int, usize)>) -> bool {
    match pend {
        None => true,
        Some(p) => {
            &&& 0 <= p.0 < i
            &&& line[p.0] == Some(Cell(p.1))
            &&& forall|k: int| p.0 < k < i ==> (#[trigger] line[k]) is None
        },
    }
}

/// Two lines that agree from index `i` on have the same values from `i` on.
pub proof fn lemma_values_from_congruent(a: Seq<BoardCell>, b: Seq<BoardCell>, i: int)
    requires
        a.len() == b.len(),
        0 <= i <= a.len(),
        forall|k: int| i <= k < a.len() ==> #[trigger] a[k] == b[k],
    ensures
        line_values_from(a, i) == line_values_from(b, i),
    decreases a.len() - i,
{
    if i < a.len() {
        lemma_values_from_congruent(a, b, i + 1);
    }
}

/// A stretch of absent slots contributes no values.
pub proof fn lemma_values_from_skip_empties(l: Seq<BoardCell>, i: int, j: int)
    requires
        0 <= i <= j <= l.len(),
        forall|k: int| i <= k < j ==> (#[trigger] l[k]) is None,
    ensures
        line_values_from(l, i) == line_values_from(l, j),
    decreases j - i,
{
    if i < j {
        lemma_values_from_skip_empties(l, i + 1, j);
    }
}

/// Unfolds `merge_pass` over a sequence with an explicit head.
pub proof fn lemma_merge_pass_cons(pending: Option<usize>, v: usize, rest: Seq<usize>)
    ensures
        merge_pass(pending, seq![v] + rest) == match pending {
            None => merge_pass(Some(v), rest),
            Some(p) => if p == v {
                seq![(2 * p) as usize] + merge_pass(None, rest)
            } else {
                seq![p] + merge_pass(Some(v), rest)
            },
        },
{
    let vals = seq![v] + rest;
    assert(vals[0] == v);
    assert(vals.skip(1) =~= rest);
}

/// Unfolds `merge_pass_fits` over a sequence with an explicit head.
pub proof fn lemma_merge_pass_fits_cons(pending: Option<usize>, v: usize, rest: Seq<usize>)
    ensures
        merge_pass_fits(pending, seq![v] + rest) == match pending {
            None => merge_pass_fits(Some(v), rest),
            Some(p) => if p == v {
                2 * p <= usize::MAX && merge_pass_fits(None, rest)
            } else {
                merge_pass_fits(Some(v), rest)
            },
        },
{
    let vals = seq![v] + rest;
    assert(vals[0] == v);
    assert(vals.skip(1) =~= rest);
}

/// The occupied slots from index `i` on are no more numerous than the slots
/// from index `i` on.
pub proof fn lemma_line_values_from_len(line: Seq<BoardCell>, i: int)
    requires
        0 <= i <= line.len(),
    ensures
        line_values_from(line, i).len() <= line.len() - i,
    decreases line.len() - i,
{
    if i < line.len() {
        lemma_line_values_from_len(line, i + 1);
    }
}

/// A merge pass never lengthens: its result has at most one value for the
/// pending slot plus one for each input value.
pub proof fn lemma_merge_pass_len(pending: Option<usize>, vals: Seq<usize>)
    ensures
        merge_pass(pending, vals).len() <= vals.len() + if pending is Some {
            1int
        } else {
            0int
        },
    decreases vals.len(),
{
    if vals.len() > 0 {
        match pending {
            None => lemma_merge_pass_len(Some(vals[0]), vals.skip(1)),
            Some(p) => if p == vals[0] {
                lemma_merge_pass_len(None, vals.skip(1));
            } else {
                lemma_merge_pass_len(Some(vals[0]), vals.skip(1));
            },
        }
    }
}

/// The merged values of a line fit back into the line.
pub proof fn lemma_merged_values_len(line: Seq<BoardCell>)
    ensures
        merged_values(line).len() <= line.len(),
{
    lemma_line_values_from_len(line, 0);
    lemma_merge_pass_len(None, line_values(line));
}

/// A merge pass that fits yields valid tile values when fed valid tile
/// values.
pub proof fn lemma_merge_pass_wf(pending: Option<usize>, vals: Seq<usize>)
    requires
        match pending {
            Some(p) => valid_value(p),
            None => true,
        },
        vals_wf(vals),
        merge_pass_fits(pending, vals),
    ensures
        vals_wf(merge_pass(pending, vals)),
    decreases vals.len(),
{
    if vals.len() == 0 {
    } else {
        assert(valid_value(vals[0]));
        assert(vals_wf(vals.skip(1)));
        match pending {
            None => lemma_merge_pass_wf(Some(vals[0]), vals.skip(1)),
            Some(p) => if p == vals[0] {
                lemma_double_valid(p);
                lemma_merge_pass_wf(None, vals.skip(1));
                assert(merge_pass(pending, vals) == seq![(2 * p) as usize] + merge_pass(
                    None,
                    vals.skip(1),
                ));
            } else {
                lemma_merge_pass_wf(Some(vals[0]), vals.skip(1));
            },
        }
    }
}

/// The values of a well-formed line are valid tile values.
pub proof fn lemma_line_values_from_wf(line: Seq<BoardCell>, i: int)
    requires
        line_wf(line),
    ensures
        vals_wf(line_values_from(line, i)),
    decreases line.len() - i,
{
    if 0 <= i < line.len() {
        lemma_line_values_from_wf(line, i + 1);
        assert(slot_wf(line[i]));
    }
}

/// A reduced well-formed line is well formed.
pub proof fn lemma_reduced_wf(line: Seq<BoardCell>)
    requires
        line_wf(line),
        line_fits(line),
    ensures
        line_wf(reduced(line)),
{
    lemma_line_values_from_wf(line, 0);
    lemma_merge_pass_wf(None, line_values(line));
}

/// A line with no occupied slot from index `i` on contributes no values.
pub proof fn lemma_line_values_from_all_empty(line: Seq<BoardCell>, i: int)
    requires
        forall|j: int| 0 <= j < line.len() ==> #[trigger] line[j] is None,
    ensures
        line_values_from(line, i) == Seq::<usize>::empty(),
    decreases line.len() - i,
{
    if 0 <= i < line.len() {
        lemma_line_values_from_all_empty(line, i + 1);
    }
}

/// Reducing an all-absent line changes nothing: the reduction of a line with
/// no occupied slot is the line itself.
pub proof fn lemma_reduce_empty_line(line: Seq<BoardCell>)
    requires
        forall|j: int| 0 <= j < line.len() ==> #[trigger] line[j] is None,
    ensures
        reduced(line) == line,
{
    lemma_line_values_from_all_empty(line, 0);
    assert(merged_values(line) == Seq::<usize>::empty());
    assert(reduced(line) =~= line);
}

/// From any reachable scan state on: the pairs still to be reported stay at
/// or beyond the scan position (the pending slot excepted), and performing
/// them in place leaves, from the first touchable slot on, exactly the
/// values that the merge pass produces.
proof fn lemma_pairs_apply_from(line: Seq<BoardCell>, i: int, pend: Option<(int, usize)>)
    requires
        0 <= i <= line.len(),
        pend_inv(line, i, pend),
    ensures
        forall|j: int|
            0 <= j < merge_pairs(line, i, pend).len() ==> i <= (#[trigger] merge_pairs(
                line,
                i,
                pend,
            )[j]).1 < line.len() && (merge_pairs(line, i, pend)[j].0 >= i || merge_pairs(
                line,
                i,
                pend,
            )[j].0 == scan_start(pend, i)),
        line_values_from(apply_pairs(line, merge_pairs(line, i, pend)), scan_start(pend, i))
            == merge_pass(pend_value(pend), line_values_from(line, i)),
    decreases line.len() - i,
{
    let ps = merge_pairs(line, i, pend);
    let a = apply_pairs(line, ps);
    if i == line.len() {
        assert(ps == Seq::<(int, int)>::empty());
        assert forall|k: int| 0 <= k < line.len() implies #[trigger] a[k] == line[k] by {
            assert(!is_merge_first(ps, k));
            assert(!is_merge_second(ps, k));
        }
        match pend {
            None => {
                lemma_values_from_congruent(a, line, i);
            },
            Some(p) => {
                lemma_values_from_congruent(a, line, p.0);
                lemma_values_from_skip_empties(line, p.0 + 1, i);
                assert(line_values_from(line, p.0) == seq![p.1] + line_values_from(line, p.0 + 1));
                assert(seq![p.1] + Seq::<usize>::empty() =~= seq![p.1]);
            },
        }
    } else {
        match line[i] {
            None => {
                lemma_pairs_apply_from(line, i + 1, pend);
                assert(ps == merge_pairs(line, i + 1, pend));
                match pend {
                    None => {
                        assert(!is_merge_first(ps, i) && !is_merge_second(ps, i));
                        assert(a[i] is None);
                        assert(line_values_from(a, i) == line_values_from(a, i + 1));
                    },
                    Some(p) => {},
                }
            },
            Some(c) => {
                match pend {
                    None => {
                        assert(pend_inv(line, i + 1, Some((i, c.0)))) by {
                            assert(c == Cell(c.0));
                        }
                        lemma_pairs_apply_from(line, i + 1, Some((i, c.0)));
                        assert(ps == merge_pairs(line, i + 1, Some((i, c.0))));
                        assert(line_values_from(line, i) == seq![c.0] + line_values_from(
                            line,
                            i + 1,
                        ));
                        lemma_merge_pass_cons(None, c.0, line_values_from(line, i + 1));
                    },
                    Some(p) => {
                        if p.1 == c.0 {
                            lemma_pairs_apply_from(line, i + 1, None);
                            let rest = merge_pairs(line, i + 1, None);
                            assert(ps == seq![(p.0, i)] + rest);
                            assert(ps[0] == (p.0, i));
                            assert(forall|j: int| 1 <= j < ps.len() ==> ps[j] == rest[j - 1]);
                            let b = apply_pairs(line, rest);
                            assert forall|k: int| i + 1 <= k < line.len() implies #[trigger] a[k]
                                == b[k] by {
                                assert(is_merge_first(ps, k) == is_merge_first(rest, k)) by {
                                    if is_merge_first(ps, k) {
                                        let j = choose|j: int|
                                            0 <= j < ps.len() && (#[trigger] ps[j]).0 == k;
                                        assert(j >= 1);
                                        assert(rest[j - 1].0 == k);
                                    }
                                    if is_merge_first(rest, k) {
                                        let j = choose|j: int|
                                            0 <= j < rest.len() && (#[trigger] rest[j]).0 == k;
                                        assert(ps[j + 1].0 == k);
                                    }
                                }
                                assert(is_merge_second(ps, k) == is_merge_second(rest, k)) by {
                                    if is_merge_second(ps, k) {
                                        let j = choose|j: int|
                                            0 <= j < ps.len() && (#[trigger] ps[j]).1 == k;
                                        assert(j >= 1);
                                        assert(rest[j - 1].1 == k);
                                    }
                                    if is_merge_second(rest, k) {
                                        let j = choose|j: int|
                                            0 <= j < rest.len() && (#[trigger] rest[j]).1 == k;
                                        assert(ps[j + 1].1 == k);
                                    }
                                }
                            }
                            assert(is_merge_first(ps, p.0)) by {
                                assert(ps[0].0 == p.0);
                            }
                            assert(a[p.0] == Some(Cell((2 * p.1) as usize)));
                            assert(line_values_from(a, p.0) == seq![(2 * p.1) as usize]
                                + line_values_from(a, p.0 + 1));
                            assert forall|k: int| p.0 < k < i implies (#[trigger] a[k]) is None by {
                                assert(!is_merge_first(ps, k)) by {
                                    if is_merge_first(ps, k) {
                                        let j = choose|j: int|
                                            0 <= j < ps.len() && (#[trigger] ps[j]).0 == k;
                                        assert(j >= 1);
                                        assert(rest[j - 1].0 == k);
                                    }
                                }
                                assert(!is_merge_second(ps, k)) by {
                                    if is_merge_second(ps, k) {
                                        let j = choose|j: int|
                                            0 <= j < ps.len() && (#[trigger] ps[j]).1 == k;
                                        assert(j >= 1);
                                        assert(rest[j - 1].1 == k);
                                    }
                                }
                                assert(a[k] == line[k]);
                            }
                            lemma_values_from_skip_empties(a, p.0 + 1, i);
                            assert(!is_merge_first(ps, i)) by {
                                if is_merge_first(ps, i) {
                                    let j = choose|j: int|
                                        0 <= j < ps.len() && (#[trigger] ps[j]).0 == i;
                                    assert(j >= 1);
                                    assert(rest[j - 1].0 == i);
                                }
                            }
                            assert(is_merge_second(ps, i)) by {
                                assert(ps[0].1 == i);
                            }
                            assert(a[i] is None);
                            assert(line_values_from(a, i) == line_values_from(a, i + 1));
                            lemma_values_from_congruent(a, b, i + 1);
                            assert(line_values_from(line, i) == seq![c.0] + line_values_from(
                                line,
                                i + 1,
                            ));
                            lemma_merge_pass_cons(pend_value(pend), c.0, line_values_from(
                                line,
                                i + 1,
                            ));
                        } else {
                            assert(pend_inv(line, i + 1, Some((i, c.0)))) by {
                                assert(c == Cell(c.0));
                            }
                            lemma_pairs_apply_from(line, i + 1, Some((i, c.0)));
                            assert(ps == merge_pairs(line, i + 1, Some((i, c.0))));
                            assert(!is_merge_first(ps, p.0) && !is_merge_second(ps, p.0));
                            assert(a[p.0] == line[p.0]);
                            assert(line_values_from(a, p.0) == seq![p.1] + line_values_from(
                                a,
                                p.0 + 1,
                            ));
                            assert forall|k: int| p.0 < k < i implies (#[trigger] a[k]) is None by {
                                assert(!is_merge_first(ps, k) && !is_merge_second(ps, k));
                                assert(a[k] == line[k]);
                            }
                            lemma_values_from_skip_empties(a, p.0 + 1, i);
                            assert(line_values_from(line, i) == seq![c.0] + line_values_from(
                                line,
                                i + 1,
                            ));
                            lemma_merge_pass_cons(pend_value(pend), c.0, line_values_from(
                                line,
                                i + 1,
                            ));
                        }
                    },
                }
            },
        }
    }
}

/// One merge pass performs exactly the merges that the mergeable pairs
/// name: doubling the leading slot of each reported pair, emptying the
/// trailing slot, and compacting the survivors toward the start yields the
/// reduced line.
pub proof fn lemma_pairs_agree_with_reduction(line: Seq<BoardCell>)
    ensures
        line_values(apply_pairs(line, mergeable_pairs(line))) == merged_values(line),
        compacted(apply_pairs(line, mergeable_pairs(line))) == reduced(line),
{
    lemma_pairs_apply_from(line, 0, None);
    let a = apply_pairs(line, mergeable_pairs(line));
    assert(a.len() == line.len());
    assert(compacted(a) =~= reduced(line));
}

/// An all-absent line trivially fits.
pub proof fn lemma_empty_line_fits(line: Seq<BoardCell>)
    requires
        forall|j: int| 0 <= j < line.len() ==> #[trigger] line[j] is None,
    ensures
        line_fits(line),
{
    lemma_line_values_from_all_empty(line, 0);
}

} // verus!

