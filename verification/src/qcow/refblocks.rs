//! Where the blocks of counts go that a rebuild writes.
//!
//! A block is needed only for clusters of which one is counted. Where none is, the table points
//! nowhere, which stands for counts of zero. A block takes up a cluster itself, which has to be
//! counted, and may need another block for that.

use vstd::arithmetic::div_mod::*;
use vstd::prelude::*;

use crate::qcow::open;
use crate::qcow::rebuild;
use crate::qcow::Error;

verus! {

/// One of the clusters whose counts are in block `j` is counted.
pub open spec fn is_used(counts: Seq<u16>, per: int, j: int) -> bool {
    exists|i: int| 0 <= i < counts.len() && #[trigger] (i / per) == j && counts[i] != 0
}

/// The table points at a block.
pub open spec fn has_block(table: Seq<u64>, j: int) -> bool {
    0 <= j < table.len() && table[j] != 0
}

/// Block `j` has to be written, and has no cluster.
pub open spec fn is_wanted(counts: Seq<u16>, table: Seq<u64>, per: int, j: int) -> bool {
    is_used(counts, per, j) && !has_block(table, j)
}

/// The first block from `j` on, of `n`, that has to be written and has no cluster.
pub open spec fn first_wanted(
    counts: Seq<u16>,
    table: Seq<u64>,
    per: int,
    n: int,
    j: int,
) -> Option<int>
    decreases n - j,
{
    if j >= n {
        None
    } else if is_wanted(counts, table, per, j) {
        Some(j)
    } else {
        first_wanted(counts, table, per, n, j + 1)
    }
}

/// The counts and the table once every block that has to be written has a cluster: the first such
/// block takes the first cluster that is free, which is counted from then on, and so on. There is
/// nothing where no cluster is left, or where the table has no entry for a block.
pub open spec fn settled(
    counts: Seq<u16>,
    table: Seq<u64>,
    cs: int,
    per: int,
    n: int,
    free: Seq<u64>,
) -> Option<(Seq<u16>, Seq<u64>)>
    decreases free.len(),
{
    match first_wanted(counts, table, per, n, 0) {
        None => Some((counts, table)),
        Some(j) => if j >= table.len() || free.len() == 0 {
            None
        } else {
            settled(
                counts.update(free[0] as int / cs, 1),
                table.update(j, free[0]),
                cs,
                per,
                n,
                free.drop_first(),
            )
        },
    }
}

/// What the search for a wanted block finds.
proof fn first_wanted_is_first(
    counts: Seq<u16>,
    table: Seq<u64>,
    per: int,
    n: int,
    from: int,
)
    ensures
        match first_wanted(counts, table, per, n, from) {
            None => forall|k: int|
                from <= k < n ==> !(#[trigger] is_wanted(counts, table, per, k)),
            Some(j) => {
                &&& from <= j < n
                &&& is_wanted(counts, table, per, j)
                &&& forall|k: int|
                    from <= k < j ==> !(#[trigger] is_wanted(counts, table, per, k))
            },
        },
    decreases n - from,
{
    if from < n && !is_wanted(counts, table, per, from) {
        first_wanted_is_first(counts, table, per, n, from + 1);
    }
}

/// Blocks that are not wanted are passed over.
proof fn unwanted_are_skipped(
    counts: Seq<u16>,
    table: Seq<u64>,
    per: int,
    n: int,
    from: int,
    to: int,
)
    requires
        from <= to,
        forall|k: int| from <= k < to ==> !(#[trigger] is_wanted(counts, table, per, k)),
    ensures
        to <= n ==> first_wanted(counts, table, per, n, from) == first_wanted(
            counts,
            table,
            per,
            n,
            to,
        ),
        to >= n ==> first_wanted(counts, table, per, n, from) is None,
    decreases to - from,
{
    if from < to {
        unwanted_are_skipped(counts, table, per, n, from + 1, to);
    }
}

/// The first free cluster, and the others once it is taken.
proof fn first_free(counts: Seq<u16>, cs: int, n: int, i: int)
    requires
        0 < cs,
        0 <= i < n <= counts.len(),
        counts[i] == 0,
        forall|j: int| 0 <= j < i ==> #[trigger] counts[j] != 0,
    ensures
        ({
            let free = open::unreferenced(counts, n, cs);
            &&& free.len() > 0
            &&& free[0] == (i * cs) as u64
            &&& open::unreferenced(counts.update(i, 1), n, cs) == free.drop_first()
        }),
    decreases n,
{
    let free = open::unreferenced(counts, n, cs);
    let after = open::unreferenced(counts.update(i, 1), n, cs);
    if i == n - 1 {
        none_is_free(counts, cs, n - 1);
        none_is_free(counts.update(i, 1), cs, n);
        assert(after =~= free.drop_first());
    } else {
        first_free(counts, cs, n - 1, i);
        assert(after =~= free.drop_first());
    }
}

/// Where every cluster is counted, none is free.
proof fn none_is_free(counts: Seq<u16>, cs: int, n: int)
    requires
        n <= counts.len(),
        forall|j: int| 0 <= j < n ==> #[trigger] counts[j] != 0,
    ensures
        open::unreferenced(counts, n, cs).len() == 0,
    decreases n,
{
    if n > 0 {
        none_is_free(counts, cs, n - 1);
    }
}

/// Whether one of the clusters whose counts are in block `j` is counted.
fn used(counts: &Vec<u16>, per: usize, j: usize) -> (r: bool)
    requires
        per > 0,
        j * per <= counts.len(),
        counts.len() + per <= usize::MAX,
    ensures
        r == is_used(counts@, per as int, j as int),
{
    proof {
        assert(0 <= j * per) by (nonlinear_arith);
    }
    let len: usize = counts.len();
    let start: usize = j * per;
    let end: usize = if start + per < len {
        start + per
    } else {
        len
    };
    let mut i: usize = start;
    while i < end
        invariant
            start <= i <= end,
            end <= len,
            len == counts@.len(),
            start == j * per,
            end <= start + per,
            per > 0,
            forall|k: int| start <= k < i ==> #[trigger] counts@[k] == 0,
        decreases end - i,
    {
        if counts[i] != 0 {
            proof {
                lemma_fundamental_div_mod_converse(i as int, per as int, j as int, i - start);
                assert((i as int / per as int) == j);
            }
            return true;
        }
        i = i + 1;
    }
    proof {
        assert forall|k: int| 0 <= k < counts@.len() && #[trigger] (k / per as int)
            == j implies counts@[k] == 0 by {
            lemma_fundamental_div_mod(k, per as int);
            lemma_mod_bound(k, per as int);
            assert(per * (k / per as int) == j * per) by (nonlinear_arith)
                requires
                    k / per as int == j,
            ;
        }
    }
    false
}

/// Gives each of the first `n` blocks that has to be written a cluster that is free, and counts
/// that. `entries` is how many entries the table has.
pub fn assign(
    counts: &mut Vec<u16>,
    entries: usize,
    cluster_size: u64,
    per: usize,
    n: usize,
) -> (r: Result<Vec<u64>, Error>)
    requires
        cluster_size > 0,
        per > 0,
        old(counts)@.len() * cluster_size <= u64::MAX,
        old(counts)@.len() + per <= usize::MAX,
        n > 0 ==> (n - 1) * per <= old(counts)@.len(),
        old(counts)@.len() > 0,
        old(counts)@[0] != 0,
    ensures
        match settled(
            old(counts)@,
            Seq::new(entries as nat, |j: int| 0u64),
            cluster_size as int,
            per as int,
            n as int,
            open::unreferenced(
                old(counts)@,
                old(counts)@.len() as int,
                cluster_size as int,
            ),
        ) {
            Some((c, t)) => r is Ok && r->Ok_0@ == t && final(counts)@ == c,
            None => r == Err::<Vec<u64>, Error>(Error::NotEnoughSpaceForRefcounts),
        },
{
    let mut table: Vec<u64> = vec![0u64; entries];
    let len: usize = counts.len();
    let ghost cs = cluster_size as int;
    let ghost p = per as int;
    let ghost zeroes = Seq::new(entries as nat, |j: int| 0u64);
    let ghost goal = settled(
        old(counts)@,
        zeroes,
        cs,
        p,
        n as int,
        open::unreferenced(old(counts)@, len as int, cs),
    );
    assert(table@ =~= zeroes);
    let mut free: usize = 0;
    let mut j: usize = 0;
    while j < n
        invariant
            j <= n,
            free <= len,
            len == counts@.len(),
            len > 0,
            table@.len() == entries,
            cs == cluster_size,
            p == per,
            cluster_size > 0,
            per > 0,
            len * cluster_size <= u64::MAX,
            len + per <= usize::MAX,
            n > 0 ==> (n - 1) * per <= len,
            counts@[0] != 0,
            forall|k: int| 0 <= k < free ==> #[trigger] counts@[k] != 0,
            forall|k: int| 0 <= k < j ==> !(#[trigger] is_wanted(counts@, table@, p, k)),
            zeroes == Seq::new(entries as nat, |k: int| 0u64),
            len == old(counts)@.len(),
            goal == settled(
                old(counts)@,
                zeroes,
                cs,
                p,
                n as int,
                open::unreferenced(old(counts)@, len as int, cs),
            ),
            goal == settled(
                counts@,
                table@,
                cs,
                p,
                n as int,
                open::unreferenced(counts@, len as int, cs),
            ),
        decreases len - free, n - j,
    {
        proof {
            assert(j * per <= (n - 1) * per) by (nonlinear_arith)
                requires
                    0 <= j <= n - 1,
                    per > 0,
            ;
            unwanted_are_skipped(counts@, table@, p, n as int, 0, j as int);
        }
        let has: bool = j < table.len() && table[j] != 0;
        if has || !used(counts, per, j) {
            j = j + 1;
            continue ;
        }
        assert(first_wanted(counts@, table@, p, n as int, 0) == Some(j as int));
        if j >= table.len() {
            return Err(Error::NotEnoughSpaceForRefcounts);
        }
        let ghost free0 = free;
        while free < len && counts[free] != 0
            invariant
                free0 <= free <= len,
                len == counts@.len(),
                forall|k: int| 0 <= k < free ==> #[trigger] counts@[k] != 0,
            decreases len - free,
        {
            free = free + 1;
        }
        if free >= len {
            proof {
                none_is_free(counts@, cs, len as int);
            }
            return Err(Error::NotEnoughSpaceForRefcounts);
        }
        let i: usize = free;
        proof {
            first_free(counts@, cs, len as int, i as int);
            assert(0 < i * cluster_size <= len * cluster_size) by (nonlinear_arith)
                requires
                    0 < i <= len,
                    cluster_size > 0,
            ;
            lemma_fundamental_div_mod_converse(i * cs, cs, i as int, 0);
        }
        let ghost c0 = counts@;
        let ghost t0 = table@;
        table.set(j, i as u64 * cluster_size);
        counts.set(i, 1);
        free = i + 1;
        let own: usize = i / per;
        proof {
            assert forall|k: int| 0 <= k < j && k != own implies !(#[trigger] is_wanted(
                counts@,
                table@,
                p,
                k,
            )) by {
                assert(!is_wanted(c0, t0, p, k));
                if is_used(counts@, p, k) {
                    let x = choose|x: int|
                        0 <= x < counts@.len() && #[trigger] (x / p) == k && counts@[x] != 0;
                    assert((x / p) == k && c0[x] != 0);
                    assert(is_used(c0, p, k));
                }
            }
        }
        let done: bool = own < table.len() && table[own] != 0;
        if own < j && !done {
            j = own;
        } else {
            j = j + 1;
        }
    }
    proof {
        unwanted_are_skipped(counts@, table@, p, n as int, 0, j as int);
    }
    Ok(table)
}

/// The clusters that the table points at.
pub open spec fn block_list(table: Seq<u64>) -> Seq<u64>
    decreases table.len(),
{
    if table.len() == 0 {
        Seq::empty()
    } else if table.last() == 0 {
        block_list(table.drop_last())
    } else {
        block_list(table.drop_last()).push(table.last())
    }
}

/// Pointing at one more block adds one reference.
proof fn one_more_block(table: Seq<u64>, j: int, at: u64, cs: int, i: int)
    requires
        0 <= j < table.len(),
        table[j] == 0,
        at != 0,
    ensures
        rebuild::references(block_list(table.update(j, at)), cs, i) == rebuild::references(
            block_list(table),
            cs,
            i,
        ) + (if at as int / cs == i {
            1int
        } else {
            0
        }),
    decreases table.len(),
{
    let after = table.update(j, at);
    let rest = table.drop_last();
    if j == table.len() - 1 {
        assert(after.drop_last() =~= rest);
        assert(block_list(after).drop_last() =~= block_list(rest));
    } else {
        assert(after.drop_last() =~= rest.update(j, at));
        assert(after.last() == table.last());
        one_more_block(rest, j, at, cs, i);
        if table.last() != 0 {
            assert(block_list(after).drop_last() =~= block_list(rest.update(j, at)));
            assert(block_list(table).drop_last() =~= block_list(rest));
        }
    }
}

/// What holds of the counts and the table while blocks are given clusters: every count is the number
/// of references to its cluster, those of the table included, and every block has a cluster of its
/// own that nothing else refers to.
pub open spec fn is_sound(counts: Seq<u16>, table: Seq<u64>, cs: int, seen: Seq<u64>) -> bool {
    &&& forall|i: int|
        0 <= i < counts.len() ==> #[trigger] counts[i] == rebuild::references(seen, cs, i)
            + rebuild::references(block_list(table), cs, i)
    &&& forall|j: int|
        0 <= j < table.len() && #[trigger] table[j] != 0 ==> {
            &&& table[j] as int % cs == 0
            &&& 0 <= table[j] as int / cs < counts.len()
            &&& counts[table[j] as int / cs] == 1
            &&& rebuild::references(seen, cs, table[j] as int / cs) == 0
        }
    &&& forall|j: int, k: int|
        0 <= j < table.len() && 0 <= k < table.len() && j != k && table[j] != 0
            ==> #[trigger] table[j] != #[trigger] table[k]
}

/// A table that points nowhere adds no reference.
proof fn no_blocks(table: Seq<u64>)
    requires
        forall|j: int| 0 <= j < table.len() ==> #[trigger] table[j] == 0,
    ensures
        block_list(table) == Seq::<u64>::empty(),
    decreases table.len(),
{
    if table.len() > 0 {
        no_blocks(table.drop_last());
    }
}

/// Giving blocks clusters keeps that up, and ends only when every count that is not zero has its
/// block.
pub proof fn settled_is_sound(
    counts: Seq<u16>,
    table: Seq<u64>,
    cs: int,
    per: int,
    n: int,
    seen: Seq<u64>,
)
    requires
        0 < cs,
        counts.len() * cs <= u64::MAX,
        counts.len() > 0,
        counts[0] != 0,
        is_sound(counts, table, cs, seen),
    ensures
        settled(
            counts,
            table,
            cs,
            per,
            n,
            open::unreferenced(counts, counts.len() as int, cs),
        ) matches Some((c, t)) ==> {
            &&& c.len() == counts.len()
            &&& t.len() == table.len()
            &&& is_sound(c, t, cs, seen)
            &&& forall|j: int| 0 <= j < n ==> !(#[trigger] is_wanted(c, t, per, j))
        },
    decreases open::unreferenced(counts, counts.len() as int, cs).len(),
{
    let len = counts.len() as int;
    let free = open::unreferenced(counts, len, cs);
    first_wanted_is_first(counts, table, per, n, 0);
    if let Some(j) = first_wanted(counts, table, per, n, 0) {
        if j < table.len() && free.len() > 0 {
            open::unreferenced_are_clusters(counts, len, cs);
            let at = free[0];
            let i = at as int / cs;
            lemma_fundamental_div_mod(at as int, cs);
            assert(cs * i == i * cs) by (nonlinear_arith);
            assert(counts[i] == 0);
            assert(at != 0) by {
                if at == 0 {
                    assert(i == 0);
                }
            }
            assert forall|k: int| 0 <= k < i implies #[trigger] counts[k] != 0 by {
                if counts[k] == 0 {
                    open::unreferenced_is_exact(counts, len, cs, k);
                    free_rises(counts, len, cs);
                    let x = choose|x: int| 0 <= x < free.len() && free[x] == (k * cs) as u64;
                    assert(0 <= k * cs < i * cs && i * cs <= len * cs) by (nonlinear_arith)
                        requires
                            0 <= k < i <= len,
                            0 < cs,
                    ;
                    assert(free[0] <= free[x]);
                }
            }
            first_free(counts, cs, len, i);
            let c = counts.update(i, 1);
            let t = table.update(j, at);
            assert forall|k: int| 0 <= k < c.len() implies #[trigger] c[k] == rebuild::references(
                seen,
                cs,
                k,
            ) + rebuild::references(block_list(t), cs, k) by {
                one_more_block(table, j, at, cs, k);
                assert(counts[k] == rebuild::references(seen, cs, k) + rebuild::references(
                    block_list(table),
                    cs,
                    k,
                ));
            }
            rebuild::references_begin_at_zero(seen, cs, i);
            rebuild::references_begin_at_zero(block_list(table), cs, i);
            assert(rebuild::references(seen, cs, i) == 0);
            assert forall|k: int| 0 <= k < t.len() && #[trigger] t[k] != 0 implies {
                &&& t[k] as int % cs == 0
                &&& 0 <= t[k] as int / cs < c.len()
                &&& c[t[k] as int / cs] == 1
                &&& rebuild::references(seen, cs, t[k] as int / cs) == 0
            } by {
                if k != j {
                    assert(table[k] == t[k]);
                    assert(t[k] as int / cs != i);
                }
            }
            assert forall|x: int, y: int|
                0 <= x < t.len() && 0 <= y < t.len() && x != y && t[x] != 0 implies #[trigger] t[x]
                != #[trigger] t[y] by {
                if x == j {
                    assert(t[y] == table[y]);
                } else if y == j {
                    assert(t[x] == table[x]);
                } else {
                    assert(t[x] == table[x] && t[y] == table[y]);
                }
            }
            settled_is_sound(c, t, cs, per, n, seen);
        }
    }
}

/// Free clusters come in order.
proof fn free_rises(counts: Seq<u16>, n: int, cs: int)
    requires
        0 <= n <= counts.len(),
        0 < cs,
        counts.len() * cs <= u64::MAX,
    ensures
        forall|j: int, k: int|
            0 <= j <= k < open::unreferenced(counts, n, cs).len() ==> #[trigger] open::unreferenced(
                counts,
                n,
                cs,
            )[j] <= #[trigger] open::unreferenced(counts, n, cs)[k],
    decreases n,
{
    if n > 0 {
        free_rises(counts, n - 1, cs);
        open::unreferenced_below(counts, n - 1, cs);
        let before = open::unreferenced(counts, n - 1, cs);
        let now = open::unreferenced(counts, n, cs);
        assert(0 <= (n - 1) * cs <= counts.len() * cs) by (nonlinear_arith)
            requires
                0 <= n - 1 <= counts.len(),
                cs > 0,
        ;
        assert forall|j: int, k: int| 0 <= j <= k < now.len() implies #[trigger] now[j]
            <= #[trigger] now[k] by {
            if j < before.len() {
                assert(now[j] == before[j]);
            }
            if k < before.len() {
                assert(now[k] == before[k]);
            }
        }
    }
}

/// Before any block has a cluster, the counts are the references that were seen.
pub proof fn nothing_assigned_is_sound(counts: Seq<u16>, entries: nat, cs: int, seen: Seq<u64>)
    requires
        forall|i: int|
            0 <= i < counts.len() ==> #[trigger] counts[i] == rebuild::references(seen, cs, i),
    ensures
        is_sound(counts, Seq::new(entries, |j: int| 0u64), cs, seen),
{
    let table = Seq::new(entries, |j: int| 0u64);
    no_blocks(table);
}

/// As many counts and entries there are as before.
pub(crate) proof fn settling_keeps_lengths(
    counts: Seq<u16>,
    table: Seq<u64>,
    cs: int,
    per: int,
    n: int,
    free: Seq<u64>,
)
    requires
        forall|x: int|
            0 <= x < free.len() ==> 0 <= #[trigger] free[x] as int / cs < counts.len(),
    ensures
        settled(counts, table, cs, per, n, free) matches Some((c, t)) ==> c.len() == counts.len()
            && t.len() == table.len(),
    decreases free.len(),
{
    first_wanted_is_first(counts, table, per, n, 0);
    if let Some(j) = first_wanted(counts, table, per, n, 0) {
        if j < table.len() && free.len() > 0 {
            let c = counts.update(free[0] as int / cs, 1);
            let rest = free.drop_first();
            assert forall|x: int| 0 <= x < rest.len() implies 0 <= #[trigger] rest[x] as int / cs
                < c.len() by {
                assert(rest[x] == free[x + 1]);
            }
            settling_keeps_lengths(
                c,
                table.update(j, free[0]),
                cs,
                per,
                n,
                rest,
            );
        }
    }
}

/// A block that is given a cluster is one of the first `n`, and holds a count that is not zero;
/// entries of the table that were zero stay so for all others.
pub proof fn only_used_blocks_are_settled(
    counts: Seq<u16>,
    table: Seq<u64>,
    cs: int,
    per: int,
    n: int,
    free: Seq<u64>,
    j: int,
)
    requires
        0 <= j < table.len(),
        table[j] == 0 || (j < n && is_used(counts, per, j)),
        forall|x: int|
            0 <= x < free.len() ==> 0 <= #[trigger] free[x] as int / cs < counts.len(),
    ensures
        settled(counts, table, cs, per, n, free) matches Some((c, t)) ==> t[j] == 0 || (j < n
            && is_used(c, per, j)),
    decreases free.len(),
{
    settling_keeps_lengths(counts, table, cs, per, n, free);
    first_wanted_is_first(counts, table, per, n, 0);
    if let Some(k) = first_wanted(counts, table, per, n, 0) {
        if k < table.len() && free.len() > 0 {
            let c = counts.update(free[0] as int / cs, 1);
            assert forall|x: int| is_used(counts, per, x) implies #[trigger] is_used(c, per, x) by {
                let i = choose|i: int|
                    0 <= i < counts.len() && #[trigger] (i / per) == x && counts[i] != 0;
                assert(0 <= i < c.len() && i / per == x && c[i] != 0);
            }
            assert(is_used(counts, per, k));
            let rest = free.drop_first();
            assert forall|x: int| 0 <= x < rest.len() implies 0 <= #[trigger] rest[x] as int / cs
                < c.len() by {
                assert(rest[x] == free[x + 1]);
            }
            only_used_blocks_are_settled(
                c,
                table.update(k, free[0]),
                cs,
                per,
                n,
                rest,
                j,
            );
        }
    }
}

} // verus!
