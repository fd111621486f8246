//! How often the tables of an image refer to a cluster of its file.

use vstd::arithmetic::div_mod::*;
use vstd::prelude::*;

use crate::qcow;
use crate::qcow::contents;
use crate::qcow::contents::Volume;
use crate::qcow::geometry;
use crate::qcow::geometry::Geometry;
use crate::qcow::map::Mapping;
use crate::qcow::rebuild;
use crate::qcow::rebuilding;
use crate::qcow::rebuilding::Rebuilding;
use crate::qcow::refblocks;

verus! {

/// How often an entry refers to the cluster of the file with index `i`.
pub open spec fn entry_use(g: Geometry, entry: u64, i: int) -> int {
    if qcow::map::is_plain(entry) {
        if entry as int / g.cs() == i {
            1
        } else {
            0
        }
    } else if entry & qcow::COMPRESSED_FLAG != 0 && geometry::first_host(entry, g.cluster_bits) <= i
        <= geometry::last_host(entry, g.cluster_bits) {
        1
    } else {
        0
    }
}

/// The entry of the cluster of the guest with index `q`.
pub open spec fn entry_of(m: Mapping, v: Volume, q: int) -> u64 {
    if contents::covered(m, q * m.geometry.cs()) {
        contents::entry_at(m, v, q * m.geometry.cs())
    } else {
        0
    }
}

/// How often the entries of the first `n` clusters of the guest refer to a cluster of the file.
pub open spec fn entry_uses(m: Mapping, v: Volume, n: int, i: int) -> int
    decreases n,
{
    if n <= 0 {
        0
    } else {
        entry_uses(m, v, n - 1, i) + entry_use(m.geometry, entry_of(m, v, n - 1), i)
    }
}

/// How often an entry of the L1 table refers to a cluster of the file.
pub open spec fn table_use(at: u64, cs: int, i: int) -> int {
    if at != 0 && at as int / cs == i {
        1
    } else {
        0
    }
}

/// How often the first `n` entries of an L1 table refer to a cluster of the file.
pub open spec fn table_uses(l1_table: Seq<u64>, n: int, cs: int, i: int) -> int
    decreases n,
{
    if n <= 0 {
        0
    } else {
        table_uses(l1_table, n - 1, cs, i) + table_use(l1_table[n - 1], cs, i)
    }
}

/// How many clusters the guest has, or one more.
pub open spec fn guest_clusters(g: Geometry) -> int {
    g.virtual_size as int / g.cs() + 1
}

/// How often the tables of an image refer to the cluster of its file with index `i`.
pub open spec fn uses(m: Mapping, v: Volume, i: int) -> int {
    table_uses(m.l1_table@, m.l1_table@.len() as int, m.geometry.cs(), i) + entry_uses(
        m,
        v,
        guest_clusters(m.geometry),
        i,
    )
}

/// There are no fewer than no references, and no fewer than one table or entry has.
proof fn a_table_is_among_the_uses(l1_table: Seq<u64>, n: int, cs: int, i: int, k: int)
    ensures
        table_uses(l1_table, n, cs, i) >= 0,
        0 <= k < n ==> table_uses(l1_table, n, cs, i) >= table_use(l1_table[k], cs, i),
    decreases n,
{
    if n > 0 {
        a_table_is_among_the_uses(l1_table, n - 1, cs, i, k);
    }
}

proof fn an_entry_is_among_the_uses(m: Mapping, v: Volume, n: int, i: int, q: int)
    ensures
        entry_uses(m, v, n, i) >= 0,
        0 <= q < n ==> entry_uses(m, v, n, i) >= entry_use(m.geometry, entry_of(m, v, q), i),
    decreases n,
{
    if n > 0 {
        an_entry_is_among_the_uses(m, v, n - 1, i, q);
    }
}

/// References are counted from zero.
pub(crate) proof fn uses_begin_at_zero(m: Mapping, v: Volume, i: int)
    ensures
        uses(m, v, i) >= 0,
{
    a_table_is_among_the_uses(m.l1_table@, m.l1_table@.len() as int, m.geometry.cs(), i, 0);
    an_entry_is_among_the_uses(m, v, guest_clusters(m.geometry), i, 0);
}

/// An L1 entry that points at a table refers to its cluster.
pub(crate) proof fn a_table_is_used(m: Mapping, v: Volume, k: int)
    requires
        0 <= k < m.l1_table@.len(),
        m.l1_table@[k] != 0,
    ensures
        uses(m, v, m.l1_table@[k] as int / m.geometry.cs()) >= 1,
{
    let cs = m.geometry.cs();
    let i = m.l1_table@[k] as int / cs;
    a_table_is_among_the_uses(m.l1_table@, m.l1_table@.len() as int, cs, i, k);
    an_entry_is_among_the_uses(m, v, guest_clusters(m.geometry), i, 0);
}

/// An address is in the cluster that its index says, and every address of it has the same entry.
pub(crate) proof fn entry_of_its_cluster(m: Mapping, v: Volume, a: int)
    requires
        m.wf(),
        contents::covered(m, a),
    ensures
        0 <= a / m.geometry.cs() < guest_clusters(m.geometry),
        contents::covered(m, a / m.geometry.cs() * m.geometry.cs()),
        entry_of(m, v, a / m.geometry.cs()) == contents::entry_at(m, v, a),
{
    let g = m.geometry;
    let cs = g.cs();
    g.bounds();
    let q = a / cs;
    lemma_div_pos_is_pos(a, cs);
    lemma_fundamental_div_mod(a, cs);
    lemma_mod_bound(a, cs);
    assert(q * cs == cs * q && 0 <= q * cs) by (nonlinear_arith)
        requires
            q >= 0,
            cs > 0,
    ;
    lemma_fundamental_div_mod_converse(q * cs, cs, q, 0);
    geometry::entries_are_clusters(g, a, q * cs);
    lemma_div_is_ordered(a, g.virtual_size as int, cs);
}

/// An entry refers to the clusters that it stands for.
pub(crate) proof fn an_entry_is_used(m: Mapping, v: Volume, a: int, i: int)
    requires
        m.wf(),
        contents::covered(m, a),
    ensures
        uses(m, v, i) >= entry_use(m.geometry, contents::entry_at(m, v, a), i) >= 0,
{
    let q = a / m.geometry.cs();
    entry_of_its_cluster(m, v, a);
    a_table_is_among_the_uses(m.l1_table@, m.l1_table@.len() as int, m.geometry.cs(), i, 0);
    an_entry_is_among_the_uses(m, v, guest_clusters(m.geometry), i, q);
}

/// Every byte of the file that the guest's bytes come from is in a cluster that the tables refer to.
pub proof fn what_is_used_is_referred_to(m: Mapping, v: Volume)
    requires
        m.wf(),
        rebuilding::is_aligned(m, v),
    ensures
        contents::counts_cover(m, v, |i: int| uses(m, v, i)),
{
    let g = m.geometry;
    let cs = g.cs();
    g.bounds();
    assert forall|x: int| #[trigger] contents::used(m, v, x) implies uses(m, v, x / cs) > 0 by {
        if exists|k: int|
            0 <= k < m.l1_table@.len() && #[trigger] m.l1_table@[k] != 0 && m.l1_table@[k] <= x
                < m.l1_table@[k] + cs {
            let k = choose|k: int|
                0 <= k < m.l1_table@.len() && #[trigger] m.l1_table@[k] != 0 && m.l1_table@[k] <= x
                    < m.l1_table@[k] + cs;
            rebuilding::in_its_cluster(m.l1_table@[k] as int, cs, x);
            a_table_is_used(m, v, k);
        } else {
            let a = choose|a: int|
                contents::covered(m, a) && !contents::clear_of_byte(
                    m,
                    #[trigger] contents::entry_at(m, v, a),
                    x,
                );
            contents::entry_facts(m, v, a);
            let e = contents::entry_at(m, v, a);
            if qcow::map::is_plain(e) {
                rebuilding::in_its_cluster(e as int, cs, x);
            } else {
                geometry::payload_bounds(e, g.cluster_bits);
                let lo = geometry::payload_offset(e, g.cluster_bits);
                let hi = lo + geometry::payload_len(e, g.cluster_bits);
                lemma_div_is_ordered(lo, x, cs);
                lemma_div_is_ordered(x, hi - 1, cs);
            }
            an_entry_is_used(m, v, a, x / cs);
        }
    }
}

/// Where neither a table nor an entry refers to a cluster, it has no reference.
pub(crate) proof fn unreferenced(m: Mapping, v: Volume, i: int)
    requires
        forall|k: int|
            0 <= k < m.l1_table@.len() ==> table_use(#[trigger] m.l1_table@[k], m.geometry.cs(), i)
                == 0,
        forall|a: int|
            contents::covered(m, a) ==> entry_use(
                m.geometry,
                #[trigger] contents::entry_at(m, v, a),
                i,
            ) == 0,
    ensures
        uses(m, v, i) == 0,
{
    no_table_uses(m.l1_table@, m.l1_table@.len() as int, m.geometry.cs(), i);
    no_entry_uses(m, v, guest_clusters(m.geometry), i);
}

proof fn no_table_uses(l1_table: Seq<u64>, n: int, cs: int, i: int)
    requires
        n <= l1_table.len(),
        forall|k: int| 0 <= k < l1_table.len() ==> table_use(#[trigger] l1_table[k], cs, i) == 0,
    ensures
        table_uses(l1_table, n, cs, i) == 0,
    decreases n,
{
    if n > 0 {
        no_table_uses(l1_table, n - 1, cs, i);
    }
}

proof fn no_entry_uses(m: Mapping, v: Volume, n: int, i: int)
    requires
        forall|a: int|
            contents::covered(m, a) ==> entry_use(
                m.geometry,
                #[trigger] contents::entry_at(m, v, a),
                i,
            ) == 0,
    ensures
        entry_uses(m, v, n, i) == 0,
    decreases n,
{
    if n > 0 {
        no_entry_uses(m, v, n - 1, i);
        assert(0u64 & 0x4000_0000_0000_0000u64 == 0) by (bit_vector);
        let a = (n - 1) * m.geometry.cs();
        if contents::covered(m, a) {
            assert(entry_of(m, v, n - 1) == contents::entry_at(m, v, a));
        }
    }
}

/// Where every entry stands for what it stood for, the references stay as they are.
pub(crate) proof fn same_uses(m: Mapping, v: Volume, after: Mapping, w: Volume, i: int)
    requires
        after.geometry == m.geometry,
        after.l1_table@ == m.l1_table@,
        forall|a: int|
            contents::covered(m, a) ==> contents::same_place(
                m.geometry,
                contents::entry_at(m, v, a),
                #[trigger] contents::entry_at(after, w, a),
            ),
    ensures
        uses(after, w, i) == uses(m, v, i),
{
    let n = guest_clusters(m.geometry);
    assert forall|q: int| 0 <= q < n implies entry_use(
        m.geometry,
        #[trigger] entry_of(after, w, q),
        i,
    ) == entry_use(m.geometry, entry_of(m, v, q), i) by {
        let a = q * m.geometry.cs();
        if contents::covered(m, a) {
            assert(contents::same_place(
                m.geometry,
                contents::entry_at(m, v, a),
                contents::entry_at(after, w, a),
            ));
        }
    }
    same_entry_uses(m, v, after, w, n, i);
}

proof fn same_entry_uses(m: Mapping, v: Volume, after: Mapping, w: Volume, n: int, i: int)
    requires
        after.geometry == m.geometry,
        after.l1_table@.len() == m.l1_table@.len(),
        forall|q: int|
            0 <= q < n ==> entry_use(m.geometry, #[trigger] entry_of(after, w, q), i) == entry_use(
                m.geometry,
                entry_of(m, v, q),
                i,
            ),
    ensures
        entry_uses(after, w, n, i) == entry_uses(m, v, n, i),
    decreases n,
{
    if n > 0 {
        same_entry_uses(m, v, after, w, n - 1, i);
        assert(entry_use(m.geometry, entry_of(after, w, n - 1), i) == entry_use(
            m.geometry,
            entry_of(m, v, n - 1),
            i,
        ));
    }
}

/// One entry changes: what it refers to is no longer what it referred to.
proof fn entry_uses_after(
    m: Mapping,
    v: Volume,
    after: Mapping,
    w: Volume,
    n: int,
    i: int,
    at: int,
)
    requires
        after.geometry == m.geometry,
        after.l1_table@.len() == m.l1_table@.len(),
        0 <= at < n,
        forall|q: int| 0 <= q < n && q != at ==> #[trigger] entry_of(after, w, q) == entry_of(m, v, q),
    ensures
        entry_uses(after, w, n, i) == entry_uses(m, v, n, i) - entry_use(
            m.geometry,
            entry_of(m, v, at),
            i,
        ) + entry_use(m.geometry, entry_of(after, w, at), i),
    decreases n,
{
    if at == n - 1 {
        same_entry_uses(m, v, after, w, n - 1, i);
    } else {
        entry_uses_after(m, v, after, w, n - 1, i, at);
        assert(entry_of(after, w, n - 1) == entry_of(m, v, n - 1));
    }
}

/// One entry of the L1 table changes.
proof fn table_uses_after(l1_table: Seq<u64>, k: int, t: u64, n: int, cs: int, i: int)
    requires
        0 <= k < l1_table.len(),
        n <= l1_table.len(),
    ensures
        table_uses(l1_table.update(k, t), n, cs, i) == table_uses(l1_table, n, cs, i) + (if k < n {
            table_use(t, cs, i) - table_use(l1_table[k], cs, i)
        } else {
            0
        }),
    decreases n,
{
    if n > 0 {
        table_uses_after(l1_table, k, t, n - 1, cs, i);
    }
}

/// What the L1 table refers to no longer once the table of an address has another cluster, and what
/// it refers to instead.
pub open spec fn moved_table_use(m: Mapping, address: u64, table: Option<u64>, i: int) -> int {
    match table {
        None => 0,
        Some(t) => table_use(t, m.geometry.cs(), i) - table_use(
            m.l1_table@[m.i(address)],
            m.geometry.cs(),
            i,
        ),
    }
}

/// The references once an entry was set: those of the entry and of its table, in place of those that
/// were there.
pub proof fn uses_after(
    m: Mapping,
    v: Volume,
    after: Mapping,
    address: u64,
    entry: u64,
    table: Option<u64>,
    i: int,
)
    requires
        m.wf(),
        m.covers(address),
        m.cached().contains_key(m.i(address)) || m.l1_table@[m.i(address)] == 0,
        contents::remapped(m, after, address, entry, table),
    ensures
        uses(after, v, i) == uses(m, v, i) - entry_use(
            m.geometry,
            contents::entry_at(m, v, address as int),
            i,
        ) + entry_use(m.geometry, entry, i) + moved_table_use(m, address, table, i),
{
    let g = m.geometry;
    let cs = g.cs();
    let n = guest_clusters(g);
    let a = address as int;
    let at = a / cs;
    g.bounds();
    entry_of_its_cluster(m, v, a);
    contents::entries_after(m, v, after, address, entry, table, a);
    entry_of_its_cluster(after, v, a);
    assert forall|q: int| 0 <= q < n && q != at implies #[trigger] entry_of(after, v, q)
        == entry_of(m, v, q) by {
        if contents::covered(m, q * cs) {
            lemma_fundamental_div_mod_converse(q * cs, cs, q, 0);
            contents::entries_after(m, v, after, address, entry, table, q * cs);
        }
    }
    entry_uses_after(m, v, after, v, n, i, at);
    contents::entry_facts(m, v, a);
    if let Some(t) = table {
        table_uses_after(m.l1_table@, m.i(address), t, m.l1_table@.len() as int, cs, i);
    }
}

/// An entry refers to no more than what is counted for it.
proof fn an_entry_is_counted(g: Geometry, raw: u64, i: int)
    requires
        g.wf(),
    ensures
        entry_use(g, qcow::map::decoded(raw), i) <= rebuild::references(
            rebuild::entry_refs(raw, g.cluster_bits),
            g.cs(),
            i,
        ),
{
    let bits = g.cluster_bits;
    let cs = g.cs();
    let refs = rebuild::entry_refs(raw, bits);
    let e = qcow::map::decoded(raw);
    g.bounds();
    qcow::map::flag_bits();
    qcow::map::decoded_wf(raw);
    rebuild::references_begin_at_zero(refs, cs, i);
    if entry_use(g, e, i) == 1 {
        if qcow::map::is_plain(e) {
            qcow::map::plain_bounds(e);
            assert(0u64 & 0x00ff_ffff_ffff_fe00u64 == 0u64) by (bit_vector);
            assert(refs[0] == e);
            rebuild::what_is_referred_to_is_counted(Seq::empty(), cs, refs, e);
        } else {
            assert(raw & 0x00ff_ffff_ffff_fe00u64 & 0x4000_0000_0000_0000u64 == 0u64)
                by (bit_vector);
            assert(e == raw);
            geometry::payload_bounds(e, bits);
            geometry::host_clusters_cover_the_payload(e, bits, 0);
            let first = geometry::first_host(e, bits);
            let at = geometry::host_clusters(e, bits)[i - first];
            assert(0u64 & 0x4000_0000_0000_0000u64 == 0u64) by (bit_vector);
            assert(refs[i - first] == at);
            lemma_div_pos_is_pos(geometry::payload_offset(e, bits), cs);
            lemma_fundamental_div_mod_converse(i * cs, cs, i, 0);
            rebuild::what_is_referred_to_is_counted(Seq::empty(), cs, refs, at);
        }
    }
}

/// The first entries of a table refer to no more than what is counted for them.
proof fn entries_are_counted(b: Rebuilding, m: Mapping, v: Volume, k: int, n: int, i: int)
    requires
        m.wf(),
        rebuilding::tables_are_those_of(b, m, v),
        0 <= k < m.l1_table@.len(),
        0 <= n <= m.geometry.entries(),
    ensures
        entry_uses(m, v, k * m.geometry.entries() + n, i) <= entry_uses(
            m,
            v,
            k * m.geometry.entries(),
            i,
        ) + (if m.l1_table@[k] == 0 {
            0
        } else {
            rebuild::references(
                rebuild::entries_refs(b.read@[k], m.geometry.cluster_bits, n),
                m.geometry.cs(),
                i,
            )
        }),
    decreases n,
{
    let g = m.geometry;
    let cs = g.cs();
    let per = g.entries();
    g.bounds();
    if n > 0 {
        entries_are_counted(b, m, v, k, n - 1, i);
        let j = n - 1;
        let q = k * per + j;
        assert(0 <= k * per) by (nonlinear_arith)
            requires
                k >= 0,
                per > 0,
        ;
        let a = q * cs;
        assert(0u64 & 0x4000_0000_0000_0000u64 == 0u64) by (bit_vector);
        lemma_fundamental_div_mod_converse(a, cs, q, 0);
        lemma_fundamental_div_mod_converse(q, per, k, j);
        assert(g.l1_of(a) == k && g.l2_of(a) == j);
        let refs = rebuild::entries_refs(b.read@[k], g.cluster_bits, j);
        if m.l1_table@[k] != 0 {
            let raw = b.read@[k][j];
            assert(!m.cached().contains_key(k));
            assert(raw == contents::raw_entry(v.file, m.l1_table@[k] + 8 * j));
            let more = rebuild::entry_refs(raw, g.cluster_bits);
            rebuild::references_add_up(refs, more, cs, i);
            rebuild::references_begin_at_zero(more, cs, i);
            an_entry_is_counted(g, raw, i);
        }
    } else {
        rebuild::references_begin_at_zero(
            rebuild::entries_refs(b.read@[k], g.cluster_bits, 0),
            cs,
            i,
        );
    }
}

/// The first tables of an image, with their entries, refer to no more than what is counted for them.
proof fn tables_are_counted(b: Rebuilding, m: Mapping, v: Volume, n: int, i: int)
    requires
        m.wf(),
        rebuilding::tables_are_those_of(b, m, v),
        0 <= n <= m.l1_table@.len(),
    ensures
        table_uses(m.l1_table@, n, m.geometry.cs(), i) + entry_uses(
            m,
            v,
            n * m.geometry.entries(),
            i,
        ) <= rebuild::references(
            rebuilding::tables_refs(b.l1_table@, b.read@, m.geometry.cluster_bits, n),
            m.geometry.cs(),
            i,
        ),
    decreases n,
{
    let g = m.geometry;
    let cs = g.cs();
    let bits = g.cluster_bits;
    let per = g.entries();
    g.bounds();
    if n > 0 {
        let k = n - 1;
        tables_are_counted(b, m, v, k, i);
        entries_are_counted(b, m, v, k, per, i);
        assert(k * per + per == n * per) by (nonlinear_arith)
            requires
                k == n - 1,
        ;
        assert(m.l1_table@[k] == b.l1_table@[k]);
        let before = rebuilding::tables_refs(b.l1_table@, b.read@, bits, k);
        if m.l1_table@[k] != 0 {
            let at = m.l1_table@[k];
            let entries = rebuild::entries_refs(b.read@[k], bits, per);
            assert(b.read@[k].len() == per);
            assert(rebuild::table_refs(at, b.read@[k], bits) == seq![at] + entries);
            rebuild::references_add_up(before, seq![at] + entries, cs, i);
            rebuild::references_add_up(seq![at], entries, cs, i);
            reveal_with_fuel(rebuild::references, 2);
            assert(seq![at].drop_last() =~= Seq::<u64>::empty());
            assert(rebuild::references(seq![at], cs, i) == table_use(at, cs, i));
        } else {
            assert(before + Seq::<u64>::empty() =~= before);
        }
    } else {
        assert(n * per == 0) by (nonlinear_arith)
            requires
                n == 0,
        ;
    }
}

/// More tables have no fewer references.
proof fn more_tables_have_more_references(
    l1_table: Seq<u64>,
    tables: Seq<Seq<u64>>,
    bits: u32,
    n: int,
    k: int,
    cs: int,
    i: int,
)
    requires
        0 <= n <= k,
    ensures
        rebuild::references(rebuilding::tables_refs(l1_table, tables, bits, n), cs, i)
            <= rebuild::references(rebuilding::tables_refs(l1_table, tables, bits, k), cs, i),
    decreases k,
{
    if n < k {
        more_tables_have_more_references(l1_table, tables, bits, n, k - 1, cs, i);
        let before = rebuilding::tables_refs(l1_table, tables, bits, k - 1);
        let more = if l1_table[k - 1] == 0 {
            Seq::empty()
        } else {
            rebuild::table_refs(l1_table[k - 1], tables[k - 1], bits)
        };
        rebuild::references_add_up(before, more, cs, i);
        rebuild::references_begin_at_zero(more, cs, i);
    }
}

/// The entries of all clusters of the guest are in the tables.
proof fn entries_are_in_tables(m: Mapping, v: Volume, n: int, i: int)
    requires
        m.wf(),
        0 <= n,
    ensures
        entry_uses(m, v, n, i) <= entry_uses(
            m,
            v,
            m.l1_table@.len() * m.geometry.entries(),
            i,
        ),
    decreases n,
{
    let g = m.geometry;
    let cs = g.cs();
    let per = g.entries();
    let all = m.l1_table@.len() * per;
    g.bounds();
    assert(0 <= all) by (nonlinear_arith)
        requires
            all == m.l1_table@.len() * per,
            per > 0,
    ;
    if n <= all {
        fewer_entries_have_fewer_uses(m, v, n, all, i);
    } else {
        entries_are_in_tables(m, v, n - 1, i);
        let q = n - 1;
        lemma_fundamental_div_mod_converse(q * cs, cs, q, 0);
        lemma_div_is_ordered(all, q, per);
        lemma_fundamental_div_mod_converse(all, per, m.l1_table@.len() as int, 0);
        assert(!contents::covered(m, q * cs));
        assert(0u64 & 0x4000_0000_0000_0000u64 == 0u64) by (bit_vector);
    }
}

proof fn fewer_entries_have_fewer_uses(m: Mapping, v: Volume, n: int, k: int, i: int)
    requires
        0 <= n <= k,
    ensures
        entry_uses(m, v, n, i) <= entry_uses(m, v, k, i),
    decreases k,
{
    if n < k {
        fewer_entries_have_fewer_uses(m, v, n, k - 1, i);
    }
}

/// After a rebuild, every cluster is counted as often as the tables of the image refer to it, or more
/// often: the header, the L1 table, the refcount table and the blocks of counts are counted too.
pub proof fn rebuilt_counts_are_enough(b: Rebuilding, m: Mapping, v: Volume, i: int)
    requires
        b.wf(),
        b.stage is Write || b.stage is Over,
        m.wf(),
        rebuilding::tables_are_those_of(b, m, v),
    ensures
        rebuilding::count_in_file(b, i) >= uses(m, v, i),
{
    let h = b.header;
    let g = m.geometry;
    let cs = g.cs();
    let bits = g.cluster_bits;
    g.bounds();
    let n = m.l1_table@.len() as int;
    let all = b.l1_table@.len() as int;
    let head = seq![0u64] + rebuild::l1_run(h);
    let tables = rebuilding::tables_refs(b.l1_table@, b.read@, bits, all);
    let run = rebuild::reftable_run(h);
    let refs = rebuilding::image_refs(h, b.l1_table@, b.read@);
    let blocks = refblocks::block_list(b.table@);
    lemma_div_pos_is_pos(g.virtual_size as int, cs);
    tables_are_counted(b, m, v, n, i);
    entries_are_in_tables(m, v, guest_clusters(g), i);
    more_tables_have_more_references(b.l1_table@, b.read@, bits, n, all, cs, i);
    rebuild::references_add_up(head + tables, run, cs, i);
    rebuild::references_add_up(head, tables, cs, i);
    rebuild::references_add_up(refs, blocks, cs, i);
    rebuild::references_begin_at_zero(head, cs, i);
    rebuild::references_begin_at_zero(run, cs, i);
    rebuild::references_begin_at_zero(blocks, cs, i);
    assert(uses(m, v, i) <= rebuild::references(refs, cs, i));
    if 0 <= i < rebuild::max_clusters(h) {
        rebuilding::every_count_is_the_number_of_references(b, i);
    } else {
        uses_begin_at_zero(m, v, i);
        assert(rebuild::references(refs, cs, i) == 0) by {
            if rebuild::references(refs, cs, i) != 0 {
                rebuild::references_begin_at_zero(refs, cs, i);
                let at = a_reference(refs, cs, i);
                rebuild::what_is_referred_to_is_counted(
                    rebuilding::uncounted(b.plan.max_clusters),
                    cs,
                    refs,
                    at,
                );
            }
        }
    }
}

/// One of the addresses that refer to a cluster.
proof fn a_reference(addresses: Seq<u64>, cs: int, i: int) -> (at: u64)
    requires
        rebuild::references(addresses, cs, i) > 0,
    ensures
        addresses.contains(at),
        at as int / cs == i,
    decreases addresses.len(),
{
    let n = addresses.len() - 1;
    assert(addresses[n] == addresses.last());
    if addresses.last() as int / cs == i {
        addresses.last()
    } else {
        let before = addresses.drop_last();
        let at = a_reference(before, cs, i);
        let j = choose|j: int| 0 <= j < before.len() && before[j] == at;
        assert(addresses[j] == at);
        at
    }
}

} // verus!
