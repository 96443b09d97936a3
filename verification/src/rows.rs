//! Facts about sequences of rows: the order of their handles, and what
//! filtering and counting do to them.

use vstd::prelude::*;
use crate::components::{CapabilitySet, EntityId, Role, Row};

verus! {

/// The handles grow strictly along the sequence.
pub open spec fn ascending(rows: Seq<Row>) -> bool {
    forall|i: int, j: int| 0 <= i < j < rows.len() ==> (#[trigger] rows[i]).id.0 < (#[trigger] rows[j]).id.0
}

/// Every handle lies below `bound`.
pub open spec fn below(rows: Seq<Row>, bound: int) -> bool {
    forall|i: int| 0 <= i < rows.len() ==> (#[trigger] rows[i]).id.0 < bound
}

/// Some row has this handle.
pub open spec fn live(rows: Seq<Row>, id: EntityId) -> bool {
    exists|i: int| 0 <= i < rows.len() && (#[trigger] rows[i]).id == id
}

/// Where the row with this handle stands, if one has it.
pub open spec fn slot(rows: Seq<Row>, id: EntityId) -> int {
    choose|i: int| 0 <= i < rows.len() && (#[trigger] rows[i]).id == id
}

/// The rows that have what `caps` asks for.
pub open spec fn matching(caps: CapabilitySet) -> spec_fn(Row) -> bool {
    |row: Row| row.matches(caps)
}

/// The rows with one role.
pub open spec fn with_role(role: Role) -> spec_fn(Row) -> bool {
    matching(CapabilitySet { role: Some(role), ..CapabilitySet::nothing() })
}

/// How many rows have this role.
pub open spec fn count_role(rows: Seq<Row>, role: Role) -> nat {
    rows.filter(with_role(role)).len()
}

/// In an ascending sequence a handle names one place only.
pub proof fn lemma_slot_unique(rows: Seq<Row>, i: int)
    requires
        ascending(rows),
        0 <= i < rows.len(),
    ensures
        live(rows, rows[i].id),
        slot(rows, rows[i].id) == i,
{
    let id = rows[i].id;
    let k = slot(rows, id);
    assert(0 <= k < rows.len() && rows[k].id == id);
    if k < i {
        assert(rows[k].id.0 < rows[i].id.0);
    }
    if i < k {
        assert(rows[i].id.0 < rows[k].id.0);
    }
}

/// Two filters that agree on every row of a sequence keep the same rows.
pub proof fn lemma_filter_same(rows: Seq<Row>, p: spec_fn(Row) -> bool, q: spec_fn(Row) -> bool)
    requires
        forall|i: int| 0 <= i < rows.len() ==> p(#[trigger] rows[i]) == q(rows[i]),
    ensures
        rows.filter(p) == rows.filter(q),
    decreases rows.len(),
{
    reveal(Seq::filter);
    if rows.len() > 0 {
        let front = rows.drop_last();
        assert forall|i: int| 0 <= i < front.len() implies p(#[trigger] front[i]) == q(front[i]) by {
            assert(front[i] == rows[i]);
        }
        lemma_filter_same(front, p, q);
        assert(p(rows[rows.len() - 1]) == q(rows[rows.len() - 1]));
    }
}

/// Filtering keeps the handles in order and under their bound.
pub proof fn lemma_filter_ascending(rows: Seq<Row>, p: spec_fn(Row) -> bool, bound: int)
    requires
        ascending(rows),
        below(rows, bound),
    ensures
        ascending(rows.filter(p)),
        below(rows.filter(p), bound),
    decreases rows.len(),
{
    reveal(Seq::filter);
    if rows.len() > 0 {
        let front = rows.drop_last();
        let last = rows.last();
        assert forall|i: int, j: int| 0 <= i < j < front.len() implies (#[trigger] front[i]).id.0 < (
        #[trigger] front[j]).id.0 by {
            assert(front[i] == rows[i] && front[j] == rows[j]);
        }
        assert forall|i: int| 0 <= i < front.len() implies (#[trigger] front[i]).id.0
            < last.id.0 by {
            assert(front[i] == rows[i]);
            assert(rows[rows.len() - 1] == last);
        }
        assert(below(front, bound)) by {
            assert forall|i: int| 0 <= i < front.len() implies (#[trigger] front[i]).id.0 < bound by {
                assert(front[i] == rows[i]);
            }
        }
        lemma_filter_ascending(front, p, last.id.0 as int);
        lemma_filter_ascending(front, p, bound);
        assert(last.id.0 < bound);
    }
}

/// What filtering the first `n + 1` rows gives, from what filtering the
/// first `n` gave.
pub proof fn lemma_filter_next(rows: Seq<Row>, p: spec_fn(Row) -> bool, n: int)
    requires
        0 <= n < rows.len(),
    ensures
        rows.take(n + 1).filter(p) == if p(rows[n]) {
            rows.take(n).filter(p).push(rows[n])
        } else {
            rows.take(n).filter(p)
        },
{
    assert(rows.take(n + 1) =~= rows.take(n).push(rows[n]));
    rows.take(n).lemma_filter_push(rows[n], p);
}

/// Rows of which none has a role add nothing to its count.
pub proof fn lemma_count_none(rows: Seq<Row>, role: Role)
    requires
        forall|i: int| 0 <= i < rows.len() ==> !(#[trigger] rows[i]).is_a(role),
    ensures
        count_role(rows, role) == 0,
    decreases rows.len(),
{
    reveal(Seq::filter);
    if rows.len() > 0 {
        let front = rows.drop_last();
        assert forall|i: int| 0 <= i < front.len() implies !(#[trigger] front[i]).is_a(role) by {
            assert(front[i] == rows[i]);
        }
        lemma_count_none(front, role);
        assert(!rows[rows.len() - 1].is_a(role));
    }
}

/// The count of a role over two runs of rows is the sum of the counts.
pub proof fn lemma_count_add(a: Seq<Row>, b: Seq<Row>, role: Role)
    ensures
        count_role(a + b, role) == count_role(a, role) + count_role(b, role),
{
    Seq::filter_distributes_over_add(a, b, with_role(role));
}

/// A row kept by a filter is a row of the sequence, and passes the filter.
pub proof fn lemma_filtered_row(rows: Seq<Row>, p: spec_fn(Row) -> bool, k: int) -> (i: int)
    requires
        0 <= k < rows.filter(p).len(),
    ensures
        0 <= i < rows.len(),
        rows[i] == rows.filter(p)[k],
        p(rows[i]),
{
    let kept = rows.filter(p);
    rows.lemma_filter_pred(p, k);
    assert(kept.contains(kept[k]));
    rows.lemma_filter_contains_rev(p, kept[k]);
    choose|i: int| 0 <= i < rows.len() && rows[i] == kept[k]
}

/// A filter that every row passes keeps the sequence as it is.
pub proof fn lemma_filter_all(rows: Seq<Row>)
    ensures
        rows.filter(matching(CapabilitySet::nothing())) == rows,
    decreases rows.len(),
{
    reveal(Seq::filter);
    if rows.len() > 0 {
        lemma_filter_all(rows.drop_last());
        assert(rows.drop_last().push(rows.last()) =~= rows);
    }
}

/// What one more row adds to the count of a role.
pub proof fn lemma_count_push(rows: Seq<Row>, row: Row, role: Role)
    ensures
        count_role(rows.push(row), role) == count_role(rows, role) + (if row.is_a(role) {
            1nat
        } else {
            0nat
        }),
{
    rows.lemma_filter_push(row, with_role(role));
}

/// Two runs of rows that agree on the role at every place agree on the
/// count of every role.
pub proof fn lemma_count_same_roles(a: Seq<Row>, b: Seq<Row>, role: Role)
    requires
        a.len() == b.len(),
        forall|i: int| 0 <= i < a.len() ==> (#[trigger] a[i]).role == b[i].role,
    ensures
        count_role(a, role) == count_role(b, role),
    decreases a.len(),
{
    if a.len() > 0 {
        let fa = a.drop_last();
        let fb = b.drop_last();
        assert forall|i: int| 0 <= i < fa.len() implies (#[trigger] fa[i]).role == fb[i].role by {
            assert(fa[i] == a[i] && fb[i] == b[i]);
        }
        lemma_count_same_roles(fa, fb, role);
        assert(a =~= fa.push(a.last()));
        assert(b =~= fb.push(b.last()));
        assert(a[a.len() - 1].role == b[a.len() - 1].role);
        lemma_count_push(fa, a.last(), role);
        lemma_count_push(fb, b.last(), role);
    } else {
        assert(a =~= b);
    }
}

/// Filtering never adds to the count of a role, and takes nothing from it
/// where every row with the role passes the filter.
pub proof fn lemma_count_filter(rows: Seq<Row>, kept: spec_fn(Row) -> bool, role: Role)
    ensures
        count_role(rows.filter(kept), role) <= count_role(rows, role),
        (forall|i: int| 0 <= i < rows.len() && (#[trigger] rows[i]).is_a(role) ==> kept(rows[i]))
            ==> count_role(rows.filter(kept), role) == count_role(rows, role),
    decreases rows.len(),
{
    if rows.len() > 0 {
        let front = rows.drop_last();
        let last = rows.last();
        lemma_count_filter(front, kept, role);
        assert(rows =~= front.push(last));
        front.lemma_filter_push(last, kept);
        lemma_count_push(front, last, role);
        lemma_count_push(front.filter(kept), last, role);
        if forall|i: int| 0 <= i < rows.len() && (#[trigger] rows[i]).is_a(role) ==> kept(rows[i]) {
            assert forall|i: int| 0 <= i < front.len() && (#[trigger] front[i]).is_a(
                role,
            ) implies kept(front[i]) by {
                assert(front[i] == rows[i]);
            }
            assert(rows[rows.len() - 1] == last);
        }
    } else {
        reveal(Seq::filter);
    }
}

} // verus!
