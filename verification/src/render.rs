//! Occurrence rows as the browser draws them: one anchor per source range.
use vstd::prelude::*;
use vstd::array::spec_array_update;

verus! {

/// One occurrence row: start line, start UTF-16 column, end line, end UTF-16 column,
/// local symbol id, target file, target line, target UTF-16 column, roles, syntax kind.
pub type OccurrenceRow = [i64; 10];

/// Whether rows `a` and `b` cover the same source range.
pub open spec fn same_range(a: OccurrenceRow, b: OccurrenceRow) -> bool {
    a[0] == b[0] && a[1] == b[1] && a[2] == b[2] && a[3] == b[3]
}

/// Whether the range of `a` comes before the range of `b` (by start line, start column,
/// end line, end column).
pub open spec fn range_before(a: OccurrenceRow, b: OccurrenceRow) -> bool {
    a[0] < b[0] || (a[0] == b[0] && (a[1] < b[1] || (a[1] == b[1] && (a[2] < b[2] || (a[2]
        == b[2] && a[3] < b[3])))))
}

/// Whether the anchor `c` is preferred over `e` for one range: first one whose target lies in
/// this index, then one with a symbol, then a definition.
pub open spec fn preferred(c: OccurrenceRow, e: OccurrenceRow) -> bool {
    let (c0, c1, c2) = (c[5] >= 0, c[4] >= 0, c[8] & 1 != 0);
    let (e0, e1, e2) = (e[5] >= 0, e[4] >= 0, e[8] & 1 != 0);
    (c0 && !e0) || (c0 == e0 && ((c1 && !e1) || (c1 == e1 && c2 && !e2)))
}

/// The row kept when `candidate` meets the row `existing` kept so far for the same range:
/// the preferred one, with the other's syntax kind when it has none of its own.
pub open spec fn combine(existing: OccurrenceRow, candidate: OccurrenceRow) -> OccurrenceRow {
    if preferred(candidate, existing) {
        if candidate[9] == 0 {
            spec_array_update(candidate, 9, existing[9])
        } else {
            candidate
        }
    } else if existing[9] == 0 {
        spec_array_update(existing, 9, candidate[9])
    } else {
        existing
    }
}

/// The row kept for the range of `key` after the rows `rows`, taken in order.
pub open spec fn kept_for(rows: Seq<OccurrenceRow>, key: OccurrenceRow) -> Option<OccurrenceRow>
    decreases rows.len(),
{
    if rows.len() == 0 {
        None
    } else {
        let prev = kept_for(rows.drop_last(), key);
        let c = rows.last();
        if !same_range(c, key) {
            prev
        } else {
            match prev {
                None => Some(c),
                Some(e) => Some(combine(e, c)),
            }
        }
    }
}

/// `out` holds one row per range of `rows`, in range order, each the row kept for its range.
pub open spec fn consolidated(rows: Seq<OccurrenceRow>, out: Seq<OccurrenceRow>) -> bool {
    &&& forall|i: int, j: int| 0 <= i < j < out.len() ==> range_before(out[i], out[j])
    &&& forall|i: int| 0 <= i < out.len() ==> kept_for(rows, #[trigger] out[i]) == Some(out[i])
    &&& forall|j: int| 0 <= j < rows.len() ==> has_range(out, #[trigger] rows[j])
}

/// Whether some row of `out` covers the range of `row`.
pub open spec fn has_range(out: Seq<OccurrenceRow>, row: OccurrenceRow) -> bool {
    exists|i: int| 0 <= i < out.len() && same_range(out[i], row)
}

proof fn lemma_kept_for_same_range(rows: Seq<OccurrenceRow>, a: OccurrenceRow, b: OccurrenceRow)
    requires
        same_range(a, b),
    ensures
        kept_for(rows, a) == kept_for(rows, b),
    decreases rows.len(),
{
    if rows.len() > 0 {
        lemma_kept_for_same_range(rows.drop_last(), a, b);
    }
}

proof fn lemma_kept_for_has_range(rows: Seq<OccurrenceRow>, key: OccurrenceRow)
    ensures
        kept_for(rows, key) matches Some(r) ==> same_range(r, key),
    decreases rows.len(),
{
    if rows.len() > 0 {
        lemma_kept_for_has_range(rows.drop_last(), key);
    }
}

pub proof fn lemma_kept_for_witness(rows: Seq<OccurrenceRow>, key: OccurrenceRow)
    ensures
        kept_for(rows, key) is Some ==> exists|j: int| 0 <= j < rows.len() && same_range(rows[j], key),
    decreases rows.len(),
{
    if rows.len() > 0 {
        lemma_kept_for_witness(rows.drop_last(), key);
        if kept_for(rows.drop_last(), key) is Some {
            let j = choose|j: int| 0 <= j < rows.drop_last().len() && same_range(rows.drop_last()[j], key);
            assert(same_range(rows[j], key));
        } else if kept_for(rows, key) is Some {
            assert(same_range(rows[rows.len() - 1], key));
        }
    }
}

proof fn lemma_kept_for_present(rows: Seq<OccurrenceRow>, j: int)
    requires
        0 <= j < rows.len(),
    ensures
        kept_for(rows, rows[j]) is Some,
    decreases rows.len(),
{
    if j < rows.len() - 1 {
        lemma_kept_for_present(rows.drop_last(), j);
    }
}

fn same_range_exec(a: &OccurrenceRow, b: &OccurrenceRow) -> (res: bool)
    ensures
        res == same_range(*a, *b),
{
    a[0] == b[0] && a[1] == b[1] && a[2] == b[2] && a[3] == b[3]
}

fn range_before_exec(a: &OccurrenceRow, b: &OccurrenceRow) -> (res: bool)
    ensures
        res == range_before(*a, *b),
{
    a[0] < b[0] || (a[0] == b[0] && (a[1] < b[1] || (a[1] == b[1] && (a[2] < b[2] || (a[2]
        == b[2] && a[3] < b[3])))))
}

fn combine_exec(existing: OccurrenceRow, candidate: OccurrenceRow) -> (res: OccurrenceRow)
    ensures
        res == combine(existing, candidate),
{
    let c0 = candidate[5] >= 0;
    let c1 = candidate[4] >= 0;
    let c2 = candidate[8] & 1 != 0;
    let e0 = existing[5] >= 0;
    let e1 = existing[4] >= 0;
    let e2 = existing[8] & 1 != 0;
    if (c0 && !e0) || (c0 == e0 && ((c1 && !e1) || (c1 == e1 && c2 && !e2))) {
        let mut kept = candidate;
        if kept[9] == 0 {
            kept[9] = existing[9];
        }
        kept
    } else {
        let mut kept = existing;
        if kept[9] == 0 {
            kept[9] = candidate[9];
        }
        kept
    }
}

/// One row per source range, in range order: where several rows share a range, the one that
/// can navigate inside this index wins and keeps a syntax kind from the others.
pub fn consolidate_render_occurrences(occurrences: Vec<OccurrenceRow>) -> (out: Vec<OccurrenceRow>)
    ensures
        consolidated(occurrences@, out@),
{
    let mut out: Vec<OccurrenceRow> = Vec::new();
    let mut n: usize = 0;
    while n < occurrences.len()
        invariant
            n <= occurrences@.len(),
            consolidated(occurrences@.take(n as int), out@),
        decreases occurrences@.len() - n,
    {
        let candidate = occurrences[n];
        let ghost pre = occurrences@.take(n as int);
        let ghost post = occurrences@.take(n + 1);
        assert(post.drop_last() =~= pre);
        assert(post.last() == candidate);
        let mut p: usize = 0;
        while p < out.len() && range_before_exec(&out[p], &candidate)
            invariant
                p <= out@.len(),
                forall|i: int| 0 <= i < p ==> range_before(#[trigger] out@[i], candidate),
            decreases out@.len() - p,
        {
            p += 1;
        }
        let ghost before = out@;
        if p < out.len() && same_range_exec(&out[p], &candidate) {
            let merged = combine_exec(out[p], candidate);
            out.set(p, merged);
            proof {
                broadcast use vstd::array::axiom_spec_array_update;

                assert(same_range(merged, before[p as int]));
                assert(out@ =~= before.update(p as int, merged));
                assert forall|i: int, j: int| 0 <= i < j < out@.len() implies range_before(
                    out@[i],
                    out@[j],
                ) by {
                    assert(range_before(before[i], before[j]));
                }
                assert(kept_for(pre, before[p as int]) == Some(before[p as int]));
                lemma_kept_for_same_range(pre, before[p as int], candidate);
                lemma_kept_for_same_range(post, merged, candidate);
                assert forall|i: int| 0 <= i < out@.len() implies kept_for(post, #[trigger] out@[i])
                    == Some(out@[i]) by {
                    if i != p {
                        assert(out@[i] == before[i]);
                        if i < p {
                            assert(range_before(before[i], before[p as int]));
                        } else {
                            assert(range_before(before[p as int], before[i]));
                        }
                        assert(!same_range(out@[i], candidate));
                    }
                }
                assert forall|j: int| 0 <= j < post.len() implies exists|i: int|
                    0 <= i < out@.len() && same_range(out@[i], #[trigger] post[j]) by {
                    if j < pre.len() {
                        assert(post[j] == pre[j]);
                        let i = choose|i: int| 0 <= i < before.len() && same_range(before[i], pre[j]);
                        assert(same_range(out@[i], post[j]));
                    } else {
                        assert(same_range(out@[p as int], post[j]));
                    }
                }
            }
        } else {
            out.insert(p, candidate);
            proof {
                assert forall|i: int| 0 <= i < before.len() implies !same_range(
                    #[trigger] before[i],
                    candidate,
                ) by {
                    if i >= p {
                        assert(range_before(candidate, before[p as int]));
                        if i > p {
                            assert(range_before(before[p as int], before[i]));
                        }
                    }
                }
                lemma_kept_for_witness(pre, candidate);
                if kept_for(pre, candidate) is Some {
                    let j = choose|j: int| 0 <= j < pre.len() && same_range(pre[j], candidate);
                    let i = choose|i: int| 0 <= i < before.len() && same_range(before[i], pre[j]);
                    assert(same_range(before[i], candidate));
                }
                assert(kept_for(post, candidate) == Some(candidate));
                assert(out@ =~= before.insert(p as int, candidate));
                assert forall|i: int, j: int| 0 <= i < j < out@.len() implies range_before(
                    out@[i],
                    out@[j],
                ) by {
                    if j == p && i < p {
                        assert(range_before(before[i], candidate));
                    } else if i == p {
                        assert(range_before(candidate, before[p as int]));
                        if j - 1 > p {
                            assert(range_before(before[p as int], before[j - 1]));
                        }
                    }
                }
                assert forall|i: int| 0 <= i < out@.len() implies kept_for(post, #[trigger] out@[i])
                    == Some(out@[i]) by {
                    if i < p {
                        assert(out@[i] == before[i]);
                        assert(!same_range(before[i], candidate));
                    } else if i > p {
                        assert(out@[i] == before[i - 1]);
                        assert(!same_range(before[i - 1], candidate));
                    }
                }
                assert forall|j: int| 0 <= j < post.len() implies exists|i: int|
                    0 <= i < out@.len() && same_range(out@[i], #[trigger] post[j]) by {
                    if j < pre.len() {
                        assert(post[j] == pre[j]);
                        let i = choose|i: int| 0 <= i < before.len() && same_range(before[i], pre[j]);
                        if i < p {
                            assert(same_range(out@[i], post[j]));
                        } else {
                            assert(out@[i + 1] == before[i]);
                            assert(same_range(out@[i + 1], post[j]));
                        }
                    } else {
                        assert(same_range(out@[p as int], post[j]));
                    }
                }
            }
        }
        n += 1;
    }
    assert(occurrences@.take(occurrences@.len() as int) =~= occurrences@);
    out
}

proof fn lemma_kept_for_unique(s: Seq<OccurrenceRow>, key: OccurrenceRow, k: int)
    requires
        0 <= k < s.len(),
        same_range(s[k], key),
        forall|j: int| 0 <= j < s.len() && j != k ==> !same_range(#[trigger] s[j], key),
    ensures
        kept_for(s, key) == Some(s[k]),
    decreases s.len(),
{
    let prev = s.drop_last();
    if k < s.len() - 1 {
        lemma_kept_for_unique(prev, key, k);
    } else {
        lemma_kept_for_witness(prev, key);
        if kept_for(prev, key) is Some {
            let j = choose|j: int| 0 <= j < prev.len() && same_range(prev[j], key);
            assert(prev[j] == s[j]);
        }
    }
}

proof fn lemma_kept_row_navigates(rows: Seq<OccurrenceRow>, key: OccurrenceRow)
    ensures
        (exists|j: int| 0 <= j < rows.len() && same_range(rows[j], key) && rows[j][5] >= 0)
            ==> (kept_for(rows, key) matches Some(r) && r[5] >= 0),
    decreases rows.len(),
{
    if rows.len() > 0 {
        let prev = rows.drop_last();
        let c = rows.last();
        lemma_kept_row_navigates(prev, key);
        if exists|j: int| 0 <= j < rows.len() && same_range(rows[j], key) && rows[j][5] >= 0 {
            let j = choose|j: int| 0 <= j < rows.len() && same_range(rows[j], key) && rows[j][5] >= 0;
            if j < rows.len() - 1 {
                assert(prev[j] == rows[j]);
            }
            if same_range(c, key) {
                if let Some(e) = kept_for(prev, key) {
                    let k = combine(e, c);
                    assert(spec_array_update(c, 9, e[9])@ == c@.update(9, e[9]));
                    assert(spec_array_update(e, 9, c[9])@ == e@.update(9, c[9]));
                    assert(spec_array_update(c, 9, e[9])[5] == c[5]);
                    assert(spec_array_update(e, 9, c[9])[5] == e[5]);
                    assert(k[5] >= 0);
                }
            }
        }
    }
}

/// Where several rows cover one source range, the row kept for it can navigate inside this
/// index (a target file, field 5, of at least 0) whenever any of those rows can: a row with a
/// target is never given up for one without.
pub proof fn law_kept_row_keeps_navigation(rows: Seq<OccurrenceRow>, out: Seq<OccurrenceRow>)
    requires
        consolidated(rows, out),
    ensures
        forall|i: int, j: int|
            #![trigger out[i], rows[j]]
            0 <= i < out.len() && 0 <= j < rows.len() && rows[j][0] == out[i][0] && rows[j][1]
                == out[i][1] && rows[j][2] == out[i][2] && rows[j][3] == out[i][3] && rows[j][5]
                >= 0 ==> out[i][5] >= 0,
{
    assert forall|i: int, j: int|
        #![trigger out[i], rows[j]]
        0 <= i < out.len() && 0 <= j < rows.len() && rows[j][0] == out[i][0] && rows[j][1]
            == out[i][1] && rows[j][2] == out[i][2] && rows[j][3] == out[i][3] && rows[j][5]
            >= 0 implies out[i][5] >= 0 by {
        assert(same_range(rows[j], out[i]));
        lemma_kept_row_navigates(rows, out[i]);
        assert(kept_for(rows, out[i]) == Some(out[i]));
    }
}

/// Consolidating rows that are already consolidated changes nothing: the result holds
/// exactly one row per range.
pub proof fn law_consolidation_is_idempotent(rows: Seq<OccurrenceRow>, out: Seq<OccurrenceRow>)
    requires
        consolidated(rows, out),
    ensures
        consolidated(out, out),
{
    assert forall|i: int| 0 <= i < out.len() implies kept_for(out, #[trigger] out[i]) == Some(out[i]) by {
        assert forall|j: int| 0 <= j < out.len() && j != i implies !same_range(#[trigger] out[j], out[i]) by {
            if j < i {
                assert(range_before(out[j], out[i]));
            } else {
                assert(range_before(out[i], out[j]));
            }
        }
        lemma_kept_for_unique(out, out[i], i);
    }
    assert forall|j: int| 0 <= j < out.len() implies has_range(out, #[trigger] out[j]) by {
        assert(same_range(out[j], out[j]));
    }
}

} // verus!
