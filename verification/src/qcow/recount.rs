//! The counts in memory follow the books.
//!
//! Setting one count can lead to others: a block of counts goes to a new cluster before it is
//! changed, that cluster is counted, and the one that it was in no longer is. While that goes on,
//! the counts that are still to be set are known, and all others are those of the books.

use vstd::prelude::*;

use crate::qcow::books;
use crate::qcow::books::Books;
use crate::qcow::counts::{Counted, RefCounts};
use crate::qcow::place;
use crate::qcow::place::{Counting, Given};
use crate::qcow::refcount::Outcome;

verus! {

/// The counts that are still to be set.
pub open spec fn due(c: Counting) -> Seq<(u64, u16)> {
    if c.step is Done {
        c.work.pending@
    } else {
        c.work.pending@.push(c.work.current)
    }
}

/// The count of a cluster is still to be set.
pub open spec fn is_due(due: Seq<(u64, u16)>, cs: int, i: int) -> bool {
    exists|d: int| 0 <= d < due.len() && #[trigger] due[d].0 as int / cs == i
}

/// The counts in memory are those of the books, but for those that are still to be set.
pub open spec fn agrees(b: Books, refs: RefCounts, due: Seq<(u64, u16)>) -> bool {
    &&& refs.wf()
    &&& refs.cluster_size == b.cs()
    &&& forall|a: u64|
        (#[trigger] refs.counted(a)) is Count ==> refs.counted(a)->Count_0 == b.counted(
            a as int / b.cs(),
        ) || is_due(due, b.cs(), a as int / b.cs())
    &&& forall|d: int|
        0 <= d < due.len() ==> b.counted((#[trigger] due[d]).0 as int / b.cs()) == due[d].1
}

/// Every block of counts has a cluster of its own, which is set aside. Those that blocks have moved
/// away from are set aside too, and are not counted. Only a block that is not as the file has it is
/// in a cluster whose count is still to be set.
pub open spec fn blocks_are_held(
    b: Books,
    refs: RefCounts,
    dropped: Seq<u64>,
    due: Seq<(u64, u16)>,
) -> bool {
    let table = refs.table@;
    &&& forall|j: int|
        0 <= j < table.len() && #[trigger] table[j] != 0 ==> b.held.contains(table[j])
            && !dropped.contains(table[j])
    &&& forall|j: int, k: int|
        0 <= j < table.len() && 0 <= k < table.len() && j != k && table[j] != 0
            ==> #[trigger] table[j] != #[trigger] table[k]
    &&& forall|x: u64| #[trigger]
        dropped.contains(x) ==> b.held.contains(x) && b.counted(x as int / b.cs()) == 0
    &&& forall|j: int|
        0 <= j < table.len() && #[trigger] table[j] != 0 && is_due(
            due,
            b.cs(),
            table[j] as int / b.cs(),
        ) ==> refs.blocks@.contains_key(j as usize) && refs.blocks@[j as usize].dirty
    &&& forall|k: usize| #[trigger] refs.blocks@.contains_key(k) ==> table[k as int] != 0
}

/// The counts that setting one leads to: that of the cluster that its block goes to, and that of the
/// one which it was in.
pub open spec fn arising(
    block: Option<u64>,
    outcome: Option<Outcome>,
    dropped: Seq<u64>,
) -> Seq<(u64, u16)> {
    (match block {
        Some(x) => seq![(x, 1u16)],
        None => Seq::<(u64, u16)>::empty(),
    }) + (match outcome {
        Some(Outcome::StoredAndMoved(m)) => if dropped.contains(m) {
            Seq::<(u64, u16)>::empty()
        } else {
            seq![(m, 0u16)]
        },
        _ => Seq::<(u64, u16)>::empty(),
    })
}

/// A count was stored, and what it leads to is known. Other counts may be left to be set when all
/// that is done.
pub open spec fn stored(
    b: Books,
    after: Books,
    c: Counting,
    next: Counting,
    refs: RefCounts,
    now: RefCounts,
    given: Given,
    rest: Seq<(u64, u16)>,
) -> bool {
    let (a, n, block) = c.storing(given)->0;
    let outcome = refs.setting(a, block);
    let known = c.work.dropped@;
    let new = arising(block, outcome, known);
    let left = c.work.pending@ + new;
    &&& c.wf()
    &&& c.storing(given) is Some
    &&& outcome is Some && (outcome->0 is Stored || outcome->0 is StoredAndMoved)
    &&& block matches Some(x) ==> {
        &&& c.step is FindBlock
        &&& x != 0
        &&& b.held.contains(x)
        &&& !refs.table@.contains(x)
        &&& !known.contains(x)
        &&& !is_due(due(c) + rest, b.cs(), x as int / b.cs())
    }
    &&& now.wf()
    &&& now.same_shape(&refs)
    &&& now.counted(a) == Counted::Count(n)
    &&& forall|other: u64|
        refs.cluster(other) != refs.cluster(a) ==> #[trigger] now.counted(other) == refs.counted(
            other,
        )
    &&& refs.stored(&now, a, block)
    &&& next.work.dropped@ == (match outcome {
        Some(Outcome::StoredAndMoved(m)) => if known.contains(m) {
            known
        } else {
            known.push(m)
        },
        _ => known,
    })
    &&& due(next) == left
    &&& after == (Books { count: after.count, ..b })
    &&& forall|i: int| #[trigger] after.counted(i) == books::after_setting(b, new, i)
}

/// What the counts that arise come to.
proof fn what_arises(b: Books, new: Seq<(u64, u16)>, i: int)
    requires
        new.len() <= 2,
    ensures
        books::after_setting(b, new, i) == (if new.len() > 0 && new.last().0 as int / b.cs() == i {
            new.last().1 as int
        } else if new.len() > 1 && new[0].0 as int / b.cs() == i {
            new[0].1 as int
        } else {
            b.counted(i)
        }),
{
    reveal_with_fuel(books::after_setting, 3);
    if new.len() == 2 {
        assert(new.drop_last().last() == new[0]);
        assert(new.drop_last().drop_last() =~= Seq::<(u64, u16)>::empty());
    } else if new.len() == 1 {
        assert(new.drop_last() =~= Seq::<(u64, u16)>::empty());
    }
}

/// Storing a count keeps the books in order, and the counts in memory with them.
pub proof fn a_stored_count_keeps_the_books(
    b: Books,
    after: Books,
    c: Counting,
    next: Counting,
    refs: RefCounts,
    now: RefCounts,
    given: Given,
    rest: Seq<(u64, u16)>,
)
    requires
        b.sound(),
        agrees(b, refs, due(c) + rest),
        blocks_are_held(b, refs, c.work.dropped@, due(c) + rest),
        stored(b, after, c, next, refs, now, given, rest),
    ensures
        after.sound(),
        agrees(after, now, due(next) + rest),
        blocks_are_held(after, now, next.work.dropped@, due(next) + rest),
{
    let (a, n, block) = c.storing(given)->0;
    let outcome = refs.setting(a, block);
    let known = c.work.dropped@;
    let new = arising(block, outcome, known);
    let old_due = due(c) + rest;
    let left = due(next) + rest;
    let cs = b.cs();
    let table = refs.table@;
    let j0 = refs.block_of(a);
    b.image.m.geometry.bounds();
    refs.places(a);
    assert(c.work.current == (a, n));
    let last = c.work.pending@.len() as int;
    assert(old_due[last] == (a, n));
    // The cluster that the block leaves is in the table, and is not the one that it goes to.
    if let Some(Outcome::StoredAndMoved(m)) = outcome {
        assert(m == table[j0]);
        assert(refs.blocks@.contains_key(j0 as usize));
        assert(m != 0);
        assert(b.holds_for(m));
        assert(!known.contains(m));
        if is_due(old_due, cs, m as int / cs) {
            assert(table[j0] != 0);
            assert(refs.blocks@[j0 as usize].dirty);
        }
    }
    if let Some(x) = block {
        assert(b.holds_for(x));
        if let Some(Outcome::StoredAndMoved(m)) = outcome {
            assert(x != m) by {
                if x == m {
                    assert(table[j0] == x);
                }
            }
            books::aligned_clusters_are_apart(x as int, m as int, cs);
        }
    }
    assert forall|i: int| #[trigger] after.counted(i) == (if new.len() > 0 && new.last().0 as int
        / cs == i {
        new.last().1 as int
    } else if new.len() > 1 && new[0].0 as int / cs == i {
        new[0].1 as int
    } else {
        b.counted(i)
    }) by {
        what_arises(b, new, i);
    }
    assert forall|d: int| 0 <= d < new.len() implies b.held.contains((#[trigger] new[d]).0) && new[d].0 as int
        % cs == 0 && !is_due(old_due, cs, new[d].0 as int / cs) && after.counted(
        new[d].0 as int / cs,
    ) == new[d].1 by {
    }
    arising_counts_keep_the_books(b, after, new);
    assert forall|d: int| 0 <= d < left.len() implies after.counted(
        (#[trigger] left[d]).0 as int / cs,
    ) == left[d].1 by {
        if d < last {
            assert(left[d] == old_due[d]);
            assert(is_due(old_due, cs, old_due[d].0 as int / cs));
        } else if d < last + new.len() {
            assert(left[d] == new[d - last]);
        } else {
            let k = d - new.len() + 1;
            assert(left[d] == old_due[k]);
            assert(is_due(old_due, cs, old_due[k].0 as int / cs));
        }
    }
    assert forall|y: u64| (#[trigger] now.counted(y)) is Count implies now.counted(y)->Count_0
        == after.counted(y as int / cs) || is_due(left, cs, y as int / cs) by {
        let i = y as int / cs;
        if i == a as int / cs {
            assert(now.counted(y) == now.counted(a));
            assert(is_due(old_due, cs, old_due[last].0 as int / cs));
        } else {
            assert(now.counted(y) == refs.counted(y));
            if is_due(old_due, cs, i) {
                let d = choose|d: int|
                    0 <= d < old_due.len() && #[trigger] old_due[d].0 as int / cs == i;
                if d < last {
                    assert(left[d] == old_due[d]);
                } else {
                    assert(d != last);
                    assert(left[d + new.len() - 1] == old_due[d]);
                }
            } else if after.counted(i) != b.counted(i) {
                if new.last().0 as int / cs == i {
                    assert(left[last + new.len() - 1] == new.last());
                } else {
                    assert(left[last] == new[0]);
                }
            }
        }
    }
    assert(agrees(after, now, left));
    blocks_stay_held(b, after, c, next, refs, now, given, rest);
}

/// Counts of clusters that are set aside were set.
proof fn arising_counts_keep_the_books(b: Books, after: Books, new: Seq<(u64, u16)>)
    requires
        b.sound(),
        new.len() <= 2,
        after == (Books { count: after.count, ..b }),
        forall|i: int| #[trigger] after.counted(i) == books::after_setting(b, new, i),
        forall|d: int| 0 <= d < new.len() ==> b.held.contains((#[trigger] new[d]).0),
    ensures
        after.sound(),
{
    let cs = b.cs();
    if new.len() == 0 {
        books::same_counts(b, after);
    } else {
        let first = Books {
            count: |i: int|
                if i == new[0].0 as int / cs {
                    new[0].1 as int
                } else {
                    b.counted(i)
                },
            ..b
        };
        books::counting_a_cluster_keeps_the_books(b, first, new[0].0, new[0].1 as int);
        assert forall|i: int| #[trigger] after.counted(i) == (if i == new.last().0 as int / cs {
            new.last().1 as int
        } else {
            first.counted(i)
        }) by {
            what_arises(b, new, i);
        }
        books::counting_a_cluster_keeps_the_books(first, after, new.last().0, new.last().1 as int);
    }
}

/// The blocks have clusters of their own when a count was stored.
proof fn blocks_stay_held(
    b: Books,
    after: Books,
    c: Counting,
    next: Counting,
    refs: RefCounts,
    now: RefCounts,
    given: Given,
    rest: Seq<(u64, u16)>,
)
    requires
        b.sound(),
        agrees(b, refs, due(c) + rest),
        blocks_are_held(b, refs, c.work.dropped@, due(c) + rest),
        stored(b, after, c, next, refs, now, given, rest),
    ensures
        blocks_are_held(after, now, next.work.dropped@, due(next) + rest),
{
    let (a, n, block) = c.storing(given)->0;
    let outcome = refs.setting(a, block);
    let known = c.work.dropped@;
    let new = arising(block, outcome, known);
    let old_due = due(c) + rest;
    let left = due(next) + rest;
    let cs = b.cs();
    let table = refs.table@;
    let after_table = now.table@;
    let after_dropped = next.work.dropped@;
    let j0 = refs.block_of(a);
    b.image.m.geometry.bounds();
    refs.places(a);
    if let Some(Outcome::StoredAndMoved(m)) = outcome {
        assert(m == table[j0]);
        assert(refs.blocks@.contains_key(j0 as usize));
        assert(b.holds_for(m));
    }
    if let Some(x) = block {
        assert(b.holds_for(x));
    }
    assert forall|x: u64| #[trigger] after_dropped.contains(x) implies known.contains(x)
        || outcome == Some(Outcome::StoredAndMoved(x)) by {
        let d = choose|d: int| 0 <= d < after_dropped.len() && after_dropped[d] == x;
        if d < known.len() {
            assert(known[d] == x);
        }
    }
    assert forall|x: u64| #[trigger] after_dropped.contains(x) implies after.held.contains(x)
        && after.counted(x as int / cs) == 0 by {
        let i = x as int / cs;
        what_arises(b, new, i);
        assert(after.counted(i) == books::after_setting(b, new, i));
        if known.contains(x) {
            assert(b.holds_for(x));
            if let Some(y) = block {
                books::aligned_clusters_are_apart(x as int, y as int, cs);
            }
        } else if let Some(y) = block {
            assert(y != x) by {
                if y == x {
                    assert(table[j0] == y);
                }
            }
            books::aligned_clusters_are_apart(x as int, y as int, cs);
        }
    }
    assert forall|j: int| 0 <= j < after_table.len() && #[trigger] after_table[j] != 0 implies after.held.contains(
        after_table[j],
    ) && !after_dropped.contains(after_table[j]) by {
        let x = after_table[j];
        if after_table[j] == table[j] {
            assert(table[j] != 0);
            if after_dropped.contains(x) && !known.contains(x) {
                assert(table[j0] == x);
                if j == j0 {
                    assert(block is Some ==> after_table[j0] == block->0);
                    assert(table.contains(table[j0]));
                }
            }
        } else {
            assert(j == j0);
            assert(block == Some(x));
            if after_dropped.contains(x) {
                assert(table.contains(table[j0]));
            }
        }
    }
    assert forall|j: int, k: int|
        0 <= j < after_table.len() && 0 <= k < after_table.len() && j != k && after_table[j]
            != 0 implies #[trigger] after_table[j] != #[trigger] after_table[k] by {
        assert(table.contains(table[j]) && table.contains(table[k]));
        if j != j0 && k != j0 {
            assert(table[j] != table[k]);
        } else if after_table == table {
            assert(table[j] != table[k]);
        }
    }
    assert forall|j: int|
        0 <= j < after_table.len() && #[trigger] after_table[j] != 0 && is_due(
            left,
            cs,
            after_table[j] as int / cs,
        ) implies now.blocks@.contains_key(j as usize) && now.blocks@[j as usize].dirty by {
        let x = after_table[j];
        if j != j0 {
            assert(table[j] == x);
            assert(b.holds_for(x));
            let i = x as int / cs;
            let d = choose|d: int| 0 <= d < left.len() && #[trigger] left[d].0 as int / cs == i;
            let k = c.work.pending@.len() as int;
            if d < k {
                assert(old_due[d] == left[d]);
                assert(is_due(old_due, cs, i));
                assert(refs.blocks@[j as usize].dirty);
            } else if d >= k + new.len() {
                assert(old_due[d - new.len() + 1] == left[d]);
                assert(is_due(old_due, cs, i));
                assert(refs.blocks@[j as usize].dirty);
            } else {
                let y = new[d - k].0;
                assert(left[d] == new[d - k]);
                assert(y != x) by {
                    assert(table.contains(table[j]));
                    assert(table[j0] != 0 ==> table[j] != table[j0]);
                }
                assert(b.held.contains(y));
                assert(b.holds_for(y));
                books::aligned_clusters_are_apart(x as int, y as int, cs);
            }
        }
    }
    assert(refs.table.len() == table.len());
    assert forall|k: usize| #[trigger] now.blocks@.contains_key(k) implies after_table[k as int]
        != 0 by {
        if k != j0 {
            assert(refs.blocks@.contains_key(k));
        }
    }
}

/// When all counts are set that one has led to, the clusters that blocks have moved away from are
/// given back. The books stay in order, and every count in memory is that of the books, unless it is
/// left to be set.
pub proof fn moved_blocks_are_given_back(
    b: Books,
    after: Books,
    c: Counting,
    refs: RefCounts,
    rest: Seq<(u64, u16)>,
)
    requires
        b.sound(),
        c.wf(),
        c.step is Done,
        c.work.pending@.len() == 0,
        agrees(b, refs, due(c) + rest),
        blocks_are_held(b, refs, c.work.dropped@, due(c) + rest),
        books::gave_back(b, after, c.work.dropped@),
    ensures
        after.sound(),
        agrees(after, refs, rest),
        blocks_are_held(after, refs, Seq::empty(), rest),
{
    books::giving_back_keeps_the_books(b, after, c.work.dropped@);
    assert(due(c) + rest =~= rest);
    assert forall|a: u64| (#[trigger] refs.counted(a)) is Count implies refs.counted(a)->Count_0
        == after.counted(a as int / b.cs()) || is_due(rest, b.cs(), a as int / b.cs()) by {
        assert(after.counted(a as int / b.cs()) == b.counted(a as int / b.cs()));
    }
    assert forall|d: int| 0 <= d < rest.len() implies after.counted(
        (#[trigger] rest[d]).0 as int / b.cs(),
    ) == rest[d].1 by {
        assert(b.counted(rest[d].0 as int / b.cs()) == rest[d].1);
    }
    assert forall|j: int|
        0 <= j < refs.table@.len() && #[trigger] refs.table@[j] != 0 implies after.held.contains(
        refs.table@[j],
    ) by {
        assert(b.held.contains(refs.table@[j]));
    }
}

/// Where nothing is left to be set, every count in memory is that of the books.
pub proof fn counts_in_memory_are_those_of_the_books(b: Books, refs: RefCounts, a: u64)
    requires
        agrees(b, refs, Seq::empty()),
        refs.counted(a) is Count,
    ensures
        refs.counted(a)->Count_0 == b.counted(a as int / b.cs()),
{
}

/// Counts are to be set, of clusters that no block is in and each of which is named once: those that
/// the tables point at now, or one that a cluster was taken for.
pub proof fn counts_become_due(b: Books, after: Books, refs: RefCounts, counts: Seq<(u64, u16)>)
    requires
        agrees(b, refs, Seq::empty()),
        blocks_are_held(b, refs, Seq::empty(), Seq::empty()),
        after.cs() == b.cs(),
        forall|i: int| #[trigger] after.counted(i) == books::after_setting(b, counts, i),
        forall|d: int, e: int|
            0 <= d < counts.len() && 0 <= e < counts.len() && d != e ==> (#[trigger] counts[d]).0 as int
                / b.cs() != (#[trigger] counts[e]).0 as int / b.cs(),
        forall|j: int|
            0 <= j < refs.table@.len() && #[trigger] refs.table@[j] != 0 ==> after.held.contains(
                refs.table@[j],
            ) && !is_due(counts, b.cs(), refs.table@[j] as int / b.cs()),
    ensures
        agrees(after, refs, counts),
        blocks_are_held(after, refs, Seq::empty(), counts),
{
    let cs = b.cs();
    assert forall|a: u64| (#[trigger] refs.counted(a)) is Count implies refs.counted(a)->Count_0
        == after.counted(a as int / cs) || is_due(counts, cs, a as int / cs) by {
        setting_counts(b, counts, a as int / cs);
        assert(after.counted(a as int / cs) == books::after_setting(b, counts, a as int / cs));
    }
    assert forall|d: int| 0 <= d < counts.len() implies after.counted(
        (#[trigger] counts[d]).0 as int / cs,
    ) == counts[d].1 by {
        let i = counts[d].0 as int / cs;
        a_count_is_set(b, counts, d);
        assert(after.counted(i) == books::after_setting(b, counts, i));
    }
}

/// Setting counts changes only those.
proof fn setting_counts(b: Books, counts: Seq<(u64, u16)>, i: int)
    ensures
        is_due(counts, b.cs(), i) || books::after_setting(b, counts, i) == b.counted(i),
    decreases counts.len(),
{
    if counts.len() > 0 {
        let before = counts.drop_last();
        setting_counts(b, before, i);
        assert(counts[counts.len() - 1] == counts.last());
        if is_due(before, b.cs(), i) {
            let d = choose|d: int|
                0 <= d < before.len() && #[trigger] before[d].0 as int / b.cs() == i;
            assert(counts[d] == before[d]);
        }
    }
}

/// Of counts that are set once each, every one is what was set.
proof fn a_count_is_set(b: Books, counts: Seq<(u64, u16)>, d: int)
    requires
        0 <= d < counts.len(),
        forall|x: int, e: int|
            0 <= x < counts.len() && 0 <= e < counts.len() && x != e ==> (#[trigger] counts[x]).0 as int
                / b.cs() != (#[trigger] counts[e]).0 as int / b.cs(),
    ensures
        books::after_setting(b, counts, counts[d].0 as int / b.cs()) == counts[d].1,
    decreases counts.len(),
{
    let n = counts.len() - 1;
    assert(counts[n] == counts.last());
    if d < n {
        let before = counts.drop_last();
        assert forall|x: int, e: int|
            0 <= x < before.len() && 0 <= e < before.len() && x
                != e implies (#[trigger] before[x]).0 as int / b.cs()
            != (#[trigger] before[e]).0 as int / b.cs() by {
            assert(before[x] == counts[x] && before[e] == counts[e]);
        }
        assert(before[d] == counts[d]);
        a_count_is_set(b, before, d);
    }
}

/// The first of the counts that are due is set next, and the others when all is done that it leads
/// to.
pub proof fn a_count_begins(b: Books, refs: RefCounts, counts: Seq<(u64, u16)>, c: Counting)
    requires
        counts.len() > 0,
        agrees(b, refs, counts),
        blocks_are_held(b, refs, Seq::empty(), counts),
        c.work.pending@ == Seq::<(u64, u16)>::empty(),
        c.work.dropped@ == Seq::<u64>::empty(),
        c.work.current == counts[0],
        c.step is Store,
    ensures
        agrees(b, refs, due(c) + place::left(counts)),
        blocks_are_held(b, refs, c.work.dropped@, due(c) + place::left(counts)),
{
    assert(due(c) + place::left(counts) =~= counts);
}

} // verus!
