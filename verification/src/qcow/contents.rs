//! What the guest sees, and that it sees what it wrote.
//!
//! The bytes of the guest come from the file, through the tables that are in memory and those that
//! are only in the file, from compressed clusters and from the file below. As long as nothing in
//! the file is used twice, each operation changes the bytes that it is meant to change, and no
//! others.

use vstd::arithmetic::div_mod::*;
use vstd::arithmetic::power2::*;
use vstd::prelude::*;

use crate::bytes;
use crate::qcow;
use crate::qcow::geometry;
use crate::qcow::geometry::Geometry;
use crate::qcow::map::{ClusterData, Fill, Lookup, Mapping, WritePlan};
use crate::qcow::requests;
use crate::qcow::requests::ReadSource;

verus! {

/// What the bytes of the guest come from.
pub struct Volume {
    /// The bytes of the file.
    pub file: spec_fn(int) -> u8,
    /// The bytes of the file below.
    pub below: spec_fn(int) -> u8,
    /// What a compressed cluster decompresses to.
    pub unpack: spec_fn(Seq<u8>) -> Seq<u8>,
}

/// The table entry at an offset of the file.
pub open spec fn raw_entry(file: spec_fn(int) -> u8, at: int) -> u64 {
    bytes::be_value(Seq::new(8, |i: int| file(at + i))) as u64
}

/// The payload of a compressed cluster.
pub open spec fn payload(file: spec_fn(int) -> u8, entry: u64, g: Geometry) -> Seq<u8> {
    Seq::new(
        geometry::payload_len(entry, g.cluster_bits) as nat,
        |i: int| file(geometry::payload_offset(entry, g.cluster_bits) + i),
    )
}

/// The address is part of the image.
pub open spec fn covered(m: Mapping, a: int) -> bool {
    0 <= a < m.geometry.virtual_size && m.geometry.l1_of(a) < m.l1_table@.len()
}

/// The entry of the cluster of an address, from memory or from the file.
pub open spec fn entry_at(m: Mapping, v: Volume, a: int) -> u64 {
    let k = m.geometry.l1_of(a);
    let j = m.geometry.l2_of(a);
    if m.l1_table@[k] == 0 {
        0
    } else if m.cached().contains_key(k) {
        m.cached()[k].values[j]
    } else {
        qcow::map::decoded(raw_entry(v.file, m.l1_table@[k] + 8 * j))
    }
}

/// The byte that an entry stands for at an address.
pub open spec fn byte_of(m: Mapping, v: Volume, entry: u64, a: int) -> u8 {
    match qcow::map::entry_data(entry, a % m.geometry.cs()) {
        ClusterData::Unallocated => if m.has_backing {
            (v.below)(a)
        } else {
            0
        },
        ClusterData::Plain(offset) => (v.file)(offset as int),
        ClusterData::Compressed(e) => (v.unpack)(
            payload(v.file, e, m.geometry),
        )[a % m.geometry.cs()],
        ClusterData::Zero => 0,
    }
}

/// The byte that the guest sees at an address.
pub open spec fn guest(m: Mapping, v: Volume, a: int) -> u8 {
    byte_of(m, v, entry_at(m, v, a), a)
}

/// Two ranges of the file have no byte in common.
pub open spec fn apart(a: int, a_len: int, b: int, b_len: int) -> bool {
    a + a_len <= b || b + b_len <= a
}

/// The payload of a compressed cluster has no byte in common with a cluster of the file.
pub open spec fn payload_apart(entry: u64, g: Geometry, c: int) -> bool {
    apart(
        geometry::payload_offset(entry, g.cluster_bits),
        geometry::payload_len(entry, g.cluster_bits),
        c,
        g.cs(),
    )
}

/// The cluster of the file at that offset is used by nothing that the guest's bytes come from.
pub open spec fn fresh(m: Mapping, v: Volume, c: int) -> bool {
    &&& forall|k: int|
        0 <= k < m.l1_table@.len() && #[trigger] m.l1_table@[k] != 0 ==> apart(
            m.l1_table@[k] as int,
            m.geometry.cs(),
            c,
            m.geometry.cs(),
        )
    &&& forall|a: int|
        covered(m, a) ==> clear_of(m, #[trigger] entry_at(m, v, a), c)
}

/// What an entry stands for has no byte in common with a cluster of the file.
pub open spec fn clear_of(m: Mapping, entry: u64, c: int) -> bool {
    &&& qcow::map::is_plain(entry) ==> apart(entry as int, m.geometry.cs(), c, m.geometry.cs())
    &&& entry & qcow::COMPRESSED_FLAG != 0 ==> payload_apart(entry, m.geometry, c)
}

/// No cluster of the file has two uses: every table has a cluster of its own, and so has the data of
/// every cluster of the guest. Only compressed clusters share one.
pub open spec fn tidy(m: Mapping, v: Volume) -> bool {
    &&& forall|k: int, l: int|
        #![trigger m.l1_table@[k], m.l1_table@[l]]
        0 <= k < l < m.l1_table@.len() && m.l1_table@[k] != 0 && m.l1_table@[l] != 0 ==> apart(
            m.l1_table@[k] as int,
            m.geometry.cs(),
            m.l1_table@[l] as int,
            m.geometry.cs(),
        )
    &&& forall|k: int, a: int|
        #![trigger m.l1_table@[k], entry_at(m, v, a)]
        0 <= k < m.l1_table@.len() && m.l1_table@[k] != 0 && covered(m, a) ==> clear_of(
            m,
            entry_at(m, v, a),
            m.l1_table@[k] as int,
        )
    &&& forall|a: int, b: int|
        #![trigger entry_at(m, v, a), entry_at(m, v, b)]
        covered(m, a) && covered(m, b) && a / m.geometry.cs() != b / m.geometry.cs()
            && qcow::map::is_plain(entry_at(m, v, b)) ==> clear_of(
            m,
            entry_at(m, v, a),
            entry_at(m, v, b) as int,
        )
}

/// The volume after bytes were written to the file.
pub open spec fn written(v: Volume, at: int, data: Seq<u8>) -> Volume {
    Volume {
        file: |x: int|
            if at <= x < at + data.len() {
                data[x - at]
            } else {
                (v.file)(x)
            },
        ..v
    }
}

/// A byte of the file lies in a cluster, if there is one.
pub open spec fn within(x: int, c: Option<u64>, g: Geometry) -> bool {
    c matches Some(at) && at <= x < at + g.cs()
}

/// The file changed at most in two clusters, or in one, or not at all.
pub open spec fn changed_in(
    v: Volume,
    after: Volume,
    g: Geometry,
    c: Option<u64>,
    t: Option<u64>,
) -> bool {
    &&& after.below == v.below
    &&& after.unpack == v.unpack
    &&& forall|x: int|
        !within(x, c, g) && !within(x, t, g) ==> #[trigger] (after.file)(x) == (v.file)(x)
}

/// Two clusters that nothing uses, for the data of a cluster of the guest and for a table.
pub open spec fn both_fresh(m: Mapping, v: Volume, c: Option<u64>, t: Option<u64>) -> bool {
    &&& c matches Some(x) ==> fresh(m, v, x as int)
    &&& t matches Some(y) ==> fresh(m, v, y as int)
    &&& (c matches Some(x) && t matches Some(y)) ==> apart(
        c->0 as int,
        m.geometry.cs(),
        t->0 as int,
        m.geometry.cs(),
    )
}

/// The two mappings are of images of the same size.
pub open spec fn same_shape(m: Mapping, after: Mapping) -> bool {
    &&& after.geometry == m.geometry
    &&& after.has_backing == m.has_backing
    &&& after.l1_table@.len() == m.l1_table@.len()
}

/// The guest sees `data` at an address, and everywhere else what it saw before.
pub open spec fn wrote(
    m: Mapping,
    v: Volume,
    after: Mapping,
    w: Volume,
    a: int,
    data: Seq<u8>,
) -> bool {
    &&& same_shape(m, after)
    &&& forall|b: int|
        covered(m, b) ==> #[trigger] guest(after, w, b) == (if a <= b < a + data.len() {
            data[b - a]
        } else {
            guest(m, v, b)
        })
}

/// What is known of every entry and its place.
pub(crate) proof fn entry_facts(m: Mapping, v: Volume, a: int)
    requires
        m.wf(),
        covered(m, a),
    ensures
        qcow::map::entry_wf(entry_at(m, v, a)),
        0 <= m.geometry.l1_of(a) < m.l1_table@.len(),
        0 <= m.geometry.l2_of(a) < m.geometry.entries(),
        0 <= 8 * m.geometry.l2_of(a),
        8 * m.geometry.l2_of(a) + 8 <= m.geometry.cs(),
        0 <= a % m.geometry.cs() < m.geometry.cs(),
        qcow::map::is_plain(entry_at(m, v, a)) ==> {
            &&& 512 <= entry_at(m, v, a) <= 0x00ff_ffff_ffff_fe00
            &&& entry_at(m, v, a) & qcow::COMPRESSED_FLAG == 0
            &&& entry_at(m, v, a) & qcow::ZERO_FLAG == 0
        },
        qcow::ZERO_FLAG & qcow::COMPRESSED_FLAG == 0,
        qcow::ZERO_FLAG & qcow::ZERO_FLAG != 0,
        0u64 & qcow::COMPRESSED_FLAG == 0,
        !qcow::map::is_plain(qcow::ZERO_FLAG),
        !qcow::map::is_plain(0),
{
    let g = m.geometry;
    g.bounds();
    lemma_div_pos_is_pos(a, g.cs());
    lemma_div_pos_is_pos(a / g.cs(), g.entries());
    lemma_mod_bound(a / g.cs(), g.entries());
    lemma_mod_bound(a, g.cs());
    let k = g.l1_of(a);
    let j = g.l2_of(a);
    qcow::map::flag_bits();
    assert(0u64 & 0x4000_0000_0000_0000u64 == 0) by (bit_vector);
    assert(1u64 & 0x00ff_ffff_ffff_fe00u64 != 1u64) by (bit_vector);
    if m.l1_table@[k] != 0 {
        if m.cached().contains_key(k) {
            m.cached_wf(k);
            assert(qcow::map::entry_wf(m.cached()[k].values[j]));
        } else {
            qcow::map::decoded_wf(raw_entry(v.file, m.l1_table@[k] + 8 * j));
        }
    }
    if qcow::map::is_plain(entry_at(m, v, a)) {
        qcow::map::plain_bounds(entry_at(m, v, a));
    }
}

/// What is in memory and what is in the file give one answer: a lookup finds what the guest sees.
pub proof fn lookups_find_the_entry(m: Mapping, v: Volume, address: u64)
    requires
        m.wf(),
        m.lookup(address) is Found,
    ensures
        covered(m, address as int),
        m.lookup(address) == Lookup::Found(
            qcow::map::entry_data(
                entry_at(m, v, address as int),
                address as int % m.geometry.cs(),
            ),
        ),
{
}

/// An entry that does not touch a part of the file stands for the same bytes, whatever is written
/// there.
proof fn same_byte(
    m: Mapping,
    v: Volume,
    w: Volume,
    c: Option<u64>,
    t: Option<u64>,
    entry: u64,
    a: int,
)
    requires
        m.wf(),
        changed_in(v, w, m.geometry, c, t),
        qcow::map::entry_wf(entry),
        c matches Some(at) ==> clear_of(m, entry, at as int),
        t matches Some(at) ==> clear_of(m, entry, at as int),
        a >= 0,
    ensures
        byte_of(m, w, entry, a) == byte_of(m, v, entry, a),
{
    let g = m.geometry;
    g.bounds();
    lemma_mod_bound(a, g.cs());
    qcow::map::flag_bits();
    if qcow::map::is_plain(entry) {
        qcow::map::plain_bounds(entry);
        let x = entry + a % g.cs();
        assert((w.file)(x) == (v.file)(x));
    } else if entry & qcow::COMPRESSED_FLAG != 0 {
        geometry::payload_bounds(entry, g.cluster_bits);
        let p = payload(w.file, entry, g);
        let q = payload(v.file, entry, g);
        assert forall|i: int| 0 <= i < p.len() implies p[i] == q[i] by {
            let x = geometry::payload_offset(entry, g.cluster_bits) + i;
            assert((w.file)(x) == (v.file)(x));
        }
        assert(p =~= q);
    }
}

/// Writing to clusters that nothing uses changes no entry and no byte of the guest.
pub proof fn unused_clusters_do_not_matter(
    m: Mapping,
    v: Volume,
    w: Volume,
    c: Option<u64>,
    t: Option<u64>,
)
    requires
        m.wf(),
        c matches Some(at) ==> fresh(m, v, at as int),
        t matches Some(at) ==> fresh(m, v, at as int),
        changed_in(v, w, m.geometry, c, t),
    ensures
        forall|a: int|
            covered(m, a) ==> #[trigger] entry_at(m, w, a) == entry_at(m, v, a) && guest(m, w, a)
                == guest(m, v, a),
        tidy(m, v) ==> tidy(m, w),
{
    assert forall|a: int| covered(m, a) implies #[trigger] entry_at(m, w, a) == entry_at(m, v, a)
        && guest(m, w, a) == guest(m, v, a) by {
        entry_facts(m, v, a);
        let g = m.geometry;
        let k = g.l1_of(a);
        let j = g.l2_of(a);
        if m.l1_table@[k] != 0 && !m.cached().contains_key(k) {
            let at = m.l1_table@[k] + 8 * j;
            assert(Seq::new(8, |i: int| (w.file)(at + i)) =~= Seq::new(
                8,
                |i: int| (v.file)(at + i),
            ));
        }
        same_byte(m, v, w, c, t, entry_at(m, v, a), a);
    }
}

/// Data that is written in place is what the guest sees there from then on; everything else stays
/// as it was.
pub proof fn a_write_in_place_is_seen(
    m: Mapping,
    v: Volume,
    address: u64,
    overwrite_len: usize,
    offset: u64,
    data: Seq<u8>,
)
    requires
        m.wf(),
        tidy(m, v),
        m.write_plan(address, overwrite_len) == WritePlan::InPlace(offset),
        address as int % m.geometry.cs() + data.len() <= m.geometry.cs(),
    ensures
        wrote(m, v, m, written(v, offset as int, data), address as int, data),
        tidy(m, written(v, offset as int, data)),
{
    m.geometry.bounds();
    qcow::map::reads_and_writes_agree(m, address, overwrite_len, offset);
    lookups_find_the_entry(m, v, address);
    entry_facts(m, v, address as int);
    data_in_its_place_is_seen(m, v, address, offset, data);
}

/// Data that is written where the entry of its address points is what the guest sees there from then
/// on, whether the table is in memory or not; everything else stays as it was.
pub proof fn data_in_its_place_is_seen(
    m: Mapping,
    v: Volume,
    address: u64,
    offset: u64,
    data: Seq<u8>,
)
    requires
        m.wf(),
        tidy(m, v),
        covered(m, address as int),
        qcow::map::is_plain(entry_at(m, v, address as int)),
        offset == entry_at(m, v, address as int) + address as int % m.geometry.cs(),
        address as int % m.geometry.cs() + data.len() <= m.geometry.cs(),
    ensures
        wrote(m, v, m, written(v, offset as int, data), address as int, data),
        tidy(m, written(v, offset as int, data)),
        forall|b: int|
            covered(m, b) ==> #[trigger] entry_at(m, written(v, offset as int, data), b)
                == entry_at(m, v, b),
{
    let g = m.geometry;
    let a0 = address as int;
    let w = written(v, offset as int, data);
    g.bounds();
    entry_facts(m, v, a0);
    let c = entry_at(m, v, a0) as int;
    let host = Some(entry_at(m, v, a0));
    assert(changed_in(v, w, g, host, None));
    assert forall|b: int| covered(m, b) implies #[trigger] entry_at(m, w, b) == entry_at(m, v, b)
        by {
        entry_facts(m, v, b);
        let k = g.l1_of(b);
        let j = g.l2_of(b);
        if m.l1_table@[k] != 0 && !m.cached().contains_key(k) {
            let at = m.l1_table@[k] + 8 * j;
            assert(clear_of(m, entry_at(m, v, a0), m.l1_table@[k] as int));
            assert(Seq::new(8, |i: int| (w.file)(at + i)) =~= Seq::new(
                8,
                |i: int| (v.file)(at + i),
            ));
        }
    }
    assert forall|b: int| covered(m, b) implies #[trigger] guest(m, w, b) == (if a0 <= b < a0
        + data.len() {
        data[b - a0]
    } else {
        guest(m, v, b)
    }) by {
        entry_facts(m, v, b);
        assert(entry_at(m, w, b) == entry_at(m, v, b));
        if b / g.cs() == a0 / g.cs() {
            geometry::entries_are_clusters(g, a0, b);
            assert(entry_at(m, v, b) == entry_at(m, v, a0));
            lemma_fundamental_div_mod(a0, g.cs());
            lemma_fundamental_div_mod(b, g.cs());
            assert(b - a0 == b % g.cs() - a0 % g.cs());
        } else {
            in_one_cluster(g, a0, data.len() as int, b);
            assert(clear_of(m, entry_at(m, v, b), c));
            same_byte(m, v, w, host, None, entry_at(m, v, b), b);
        }
    }
    assert(tidy(m, w));
}

/// An address of another cluster is none of the addresses of a piece.
pub(crate) proof fn in_one_cluster(g: Geometry, a: int, n: int, b: int)
    requires
        g.wf(),
        0 <= a,
        0 <= n,
        a % g.cs() + n <= g.cs(),
        b / g.cs() != a / g.cs(),
    ensures
        !(a <= b < a + n),
{
    g.bounds();
    if a <= b < a + n {
        lemma_fundamental_div_mod(a, g.cs());
        let q = a / g.cs();
        assert(g.cs() * q == q * g.cs()) by (nonlinear_arith);
        lemma_fundamental_div_mod_converse(b, g.cs(), q, a % g.cs() + (b - a));
    }
}

/// A byte of what a new cluster starts out with.
pub open spec fn fill_byte(m: Mapping, v: Volume, fill: Fill, i: int) -> u8 {
    match fill {
        Fill::Zeroed => 0,
        Fill::Backing(begin) => (v.below)(begin + i),
        Fill::Decompress(entry) => (v.unpack)(payload(v.file, entry, m.geometry))[i],
    }
}

/// A new cluster holds what it starts out with, and the data over it.
pub open spec fn cluster_holds(
    m: Mapping,
    v: Volume,
    w: Volume,
    c: int,
    fill: Fill,
    at: int,
    data: Seq<u8>,
) -> bool {
    forall|i: int|
        0 <= i < m.geometry.cs() ==> #[trigger] (w.file)(c + i) == (if at <= i < at + data.len() {
            data[i - at]
        } else {
            fill_byte(m, v, fill, i)
        })
}

/// A write needs a new cluster, which starts out so.
pub open spec fn needs_cluster(plan: WritePlan, fill: Fill) -> bool {
    plan == WritePlan::TableThenData(fill) || plan == WritePlan::DataThenTable(fill) || plan
        == WritePlan::Data(fill)
}

/// The mapping `after` is `before` with `entry` for the cluster of an address, and with a new cluster
/// for its table where there is one.
pub open spec fn remapped(
    before: Mapping,
    after: Mapping,
    address: u64,
    entry: u64,
    table: Option<u64>,
) -> bool {
    &&& after.wf()
    &&& same_shape(before, after)
    &&& qcow::map::entry_set(before, after, address, entry)
    &&& after.l1_table@ == (match table {
        None => before.l1_table@,
        Some(t) => before.l1_table@.update(before.i(address), t),
    })
}

/// The entries after one was set: it is the one of its cluster, and all others are as before.
pub(crate) proof fn entries_after(
    m: Mapping,
    v: Volume,
    after: Mapping,
    address: u64,
    entry: u64,
    table: Option<u64>,
    b: int,
)
    requires
        m.wf(),
        m.covers(address),
        m.cached().contains_key(m.i(address)) || m.l1_table@[m.i(address)] == 0,
        remapped(m, after, address, entry, table),
        covered(m, b),
    ensures
        covered(after, b),
        entry_at(after, v, b) == (if b / m.geometry.cs() == address as int / m.geometry.cs() {
            entry
        } else {
            entry_at(m, v, b)
        }),
{
    let g = m.geometry;
    let a0 = address as int;
    entry_facts(m, v, b);
    entry_facts(m, v, a0);
    geometry::entries_are_clusters(g, a0, b);
    let k = g.l1_of(a0);
    if m.cached().contains_key(k) {
        m.cached_wf(k);
    }
    assert(after.cached()[k].values == m.values_before(address).update(m.j(address), entry));
}

/// Where setting an entry leads: every other cluster of the guest stays as it was, and nothing in
/// the file is used twice.
pub(crate) proof fn after_remapping(
    m: Mapping,
    v: Volume,
    after: Mapping,
    w: Volume,
    address: u64,
    entry: u64,
    c: Option<u64>,
    table: Option<u64>,
)
    requires
        m.wf(),
        tidy(m, v),
        m.covers(address),
        m.cached().contains_key(m.i(address)) || m.l1_table@[m.i(address)] == 0,
        remapped(m, after, address, entry, table),
        both_fresh(m, v, c, table),
        changed_in(v, w, m.geometry, c, table),
        entry == 0 || entry == qcow::ZERO_FLAG || (qcow::map::is_plain(entry) && c == Some(entry)),
    ensures
        forall|b: int|
            covered(m, b) ==> #[trigger] entry_at(after, w, b) == (if b
                / m.geometry.cs() == address as int / m.geometry.cs() {
                entry
            } else {
                entry_at(m, v, b)
            }),
        forall|b: int|
            covered(m, b) && b / m.geometry.cs() != address as int / m.geometry.cs()
                ==> #[trigger] guest(after, w, b) == guest(m, v, b),
        tidy(after, w),
{
    let g = m.geometry;
    let a0 = address as int;
    g.bounds();
    unused_clusters_do_not_matter(m, v, w, c, table);
    entry_facts(m, v, a0);
    if qcow::map::is_plain(entry) {
        qcow::map::plain_bounds(entry);
    }
    assert forall|b: int| covered(m, b) implies #[trigger] entry_at(
        after,
        w,
        b,
    ) == (if b / g.cs() == a0 / g.cs() {
        entry
    } else {
        entry_at(m, v, b)
    }) by {
        entries_after(m, w, after, address, entry, table, b);
        assert(entry_at(m, w, b) == entry_at(m, v, b));
    }
    assert forall|b: int|
        covered(m, b) && b / g.cs() != a0 / g.cs() implies #[trigger] guest(after, w, b) == guest(
        m,
        v,
        b,
    ) by {
        assert(entry_at(after, w, b) == entry_at(m, v, b));
        assert(entry_at(m, w, b) == entry_at(m, v, b));
        assert(guest(m, w, b) == guest(m, v, b));
    }
    let l1 = after.l1_table@;
    assert forall|k: int, l: int|
        #![trigger l1[k], l1[l]]
        0 <= k < l < l1.len() && l1[k] != 0 && l1[l] != 0 implies apart(
        l1[k] as int,
        g.cs(),
        l1[l] as int,
        g.cs(),
    ) by {
        if table is Some && (k == m.i(address) || l == m.i(address)) {
            if k == m.i(address) {
                assert(m.l1_table@[l] == l1[l]);
            } else {
                assert(m.l1_table@[k] == l1[k]);
            }
        } else {
            assert(m.l1_table@[k] == l1[k] && m.l1_table@[l] == l1[l]);
        }
    }
    assert forall|k: int, b: int|
        #![trigger l1[k], entry_at(after, w, b)]
        0 <= k < l1.len() && l1[k] != 0 && covered(after, b) implies clear_of(
        after,
        entry_at(after, w, b),
        l1[k] as int,
    ) by {
        assert(covered(m, b));
        entry_facts(m, v, b);
        let old_entry = entry_at(m, v, b);
        if b / g.cs() == a0 / g.cs() {
            if table is Some && k == m.i(address) {
            } else {
                assert(m.l1_table@[k] == l1[k]);
            }
        } else if table is Some && k == m.i(address) {
            assert(clear_of(m, old_entry, l1[k] as int));
        } else {
            assert(m.l1_table@[k] == l1[k]);
            assert(clear_of(m, old_entry, l1[k] as int));
        }
    }
    assert forall|a: int, b: int|
        #![trigger entry_at(after, w, a), entry_at(after, w, b)]
        covered(after, a) && covered(after, b) && a / g.cs() != b / g.cs() && qcow::map::is_plain(
            entry_at(after, w, b),
        ) implies clear_of(after, entry_at(after, w, a), entry_at(after, w, b) as int) by {
        assert(covered(m, a) && covered(m, b));
        entry_facts(m, v, a);
        entry_facts(m, v, b);
        let x = entry_at(m, v, a);
        let y = entry_at(m, v, b);
        if a / g.cs() == a0 / g.cs() {
            assert(entry_at(after, w, b) == y);
            assert(c matches Some(at) ==> clear_of(m, y, at as int));
        } else if b / g.cs() == a0 / g.cs() {
            assert(entry_at(after, w, a) == x);
            assert(c matches Some(at) ==> clear_of(m, x, at as int));
        } else {
            assert(clear_of(m, x, y as int));
        }
    }
}

/// Data that needed a new cluster is what the guest sees from then on. The rest of the cluster is as
/// it was before, whether it came from the file below, from a compressed cluster or from nowhere, and
/// everything else stays as it was.
pub proof fn a_write_to_a_new_cluster_is_seen(
    m: Mapping,
    v: Volume,
    after: Mapping,
    w: Volume,
    address: u64,
    data: Seq<u8>,
    fill: Fill,
    c: u64,
    table: Option<u64>,
)
    requires
        m.wf(),
        tidy(m, v),
        data.len() <= usize::MAX,
        needs_cluster(m.write_plan(address, data.len() as usize), fill),
        address as int % m.geometry.cs() + data.len() <= m.geometry.cs(),
        qcow::map::is_plain(c),
        both_fresh(m, v, Some(c), table),
        changed_in(v, w, m.geometry, Some(c), table),
        cluster_holds(
            m,
            v,
            w,
            c as int,
            fill,
            address as int % m.geometry.cs(),
            data,
        ),
        remapped(m, after, address, c, table),
    ensures
        wrote(m, v, after, w, address as int, data),
        tidy(after, w),
{
    let g = m.geometry;
    let a0 = address as int;
    g.bounds();
    entry_facts(m, v, a0);
    after_remapping(m, v, after, w, address, c, Some(c), table);
    qcow::map::plain_bounds(c);
    assert forall|b: int| covered(m, b) implies #[trigger] guest(after, w, b)
        == (if a0 <= b < a0 + data.len() {
        data[b - a0]
    } else {
        guest(m, v, b)
    }) by {
        assert(b / g.cs() == a0 / g.cs() ==> entry_at(after, w, b) == c);
        if b / g.cs() != a0 / g.cs() {
            in_one_cluster(g, a0, data.len() as int, b);
        } else {
            lemma_fundamental_div_mod(a0, g.cs());
            lemma_fundamental_div_mod(b, g.cs());
            lemma_mod_bound(b, g.cs());
            geometry::entries_are_clusters(g, a0, b);
            let i = b % g.cs();
            assert((w.file)(c + i) == (if a0 % g.cs() <= i < a0 % g.cs() + data.len() {
                data[i - a0 % g.cs()]
            } else {
                fill_byte(m, v, fill, i)
            }));
            assert(guest(after, w, b) == (w.file)(c + i));
            if !(a0 <= b < a0 + data.len()) {
                let e = entry_at(m, v, b);
                entry_facts(m, v, b);
                assert(e == entry_at(m, v, a0));
                assert(fill == m.fill_for(address, data.len() as usize, e));
                if m.overwrites(address, data.len() as usize) {
                    assert(false);
                }
                if fill is Backing {
                    assert(a0 - a0 % g.cs() + i == b);
                }
            }
        }
    }
}

/// A cluster that was marked as zero is seen as zeroes, whatever is below, and everything else stays
/// as it was.
pub proof fn a_zeroed_cluster_is_seen_as_zeroes(
    m: Mapping,
    v: Volume,
    after: Mapping,
    w: Volume,
    address: u64,
    table: Option<u64>,
)
    requires
        m.wf(),
        tidy(m, v),
        m.covers(address),
        m.cached().contains_key(m.i(address)) || m.l1_table@[m.i(address)] == 0,
        remapped(m, after, address, qcow::ZERO_FLAG, table),
        both_fresh(m, v, None, table),
        changed_in(v, w, m.geometry, None, table),
    ensures
        forall|b: int|
            covered(m, b) ==> #[trigger] guest(after, w, b) == (if b
                / m.geometry.cs() == address as int / m.geometry.cs() {
                0
            } else {
                guest(m, v, b)
            }),
        tidy(after, w),
{
    after_remapping(m, v, after, w, address, qcow::ZERO_FLAG, None, table);
    qcow::map::flag_bits();
    assert forall|b: int| covered(m, b) implies #[trigger] guest(after, w, b)
        == (if b / m.geometry.cs() == address as int / m.geometry.cs() {
        0
    } else {
        guest(m, v, b)
    }) by {
        assert(b / m.geometry.cs() == address as int / m.geometry.cs() ==> entry_at(after, w, b)
            == qcow::ZERO_FLAG);
    }
}

/// A cluster whose mapping was dropped is seen as zeroes or as what is below, and everything else
/// stays as it was. The cluster of the file that held its data has no other use: it can be used
/// again, and its storage can be given back.
pub proof fn a_dropped_cluster_is_free(m: Mapping, v: Volume, after: Mapping, address: u64)
    requires
        m.wf(),
        tidy(m, v),
        m.covers(address),
        m.cached().contains_key(m.i(address)),
        after.wf(),
        after.geometry == m.geometry,
        after.has_backing == m.has_backing,
        after.l1_table@ == m.l1_table@,
        after.cached() == m.cleared(address),
    ensures
        forall|b: int|
            covered(m, b) ==> #[trigger] guest(after, v, b) == (if b
                / m.geometry.cs() == address as int / m.geometry.cs() {
                if m.has_backing {
                    (v.below)(b)
                } else {
                    0
                }
            } else {
                guest(m, v, b)
            }),
        tidy(after, v),
        qcow::map::is_plain(m.entry(address)) ==> fresh(after, v, m.entry(address) as int),
{
    let g = m.geometry;
    let a0 = address as int;
    m.cached_wf(m.i(address));
    entry_facts(m, v, a0);
    after_remapping(m, v, after, v, address, 0, None, None);
    assert forall|b: int| covered(m, b) implies #[trigger] guest(after, v, b)
        == (if b / g.cs() == a0 / g.cs() {
        if m.has_backing {
            (v.below)(b)
        } else {
            0
        }
    } else {
        guest(m, v, b)
    }) by {
        assert(b / g.cs() == a0 / g.cs() ==> entry_at(after, v, b) == 0);
    }
    if qcow::map::is_plain(m.entry(address)) {
        let h = m.entry(address) as int;
        assert(entry_at(m, v, a0) == m.entry(address));
        assert forall|k: int|
            0 <= k < after.l1_table@.len() && #[trigger] after.l1_table@[k] != 0 implies apart(
            after.l1_table@[k] as int,
            g.cs(),
            h,
            g.cs(),
        ) by {
            assert(clear_of(m, entry_at(m, v, a0), m.l1_table@[k] as int));
        }
        assert forall|b: int| covered(after, b) implies clear_of(
            after,
            #[trigger] entry_at(after, v, b),
            h,
        ) by {
            assert(covered(m, b));
            entry_facts(m, v, b);
            if b / g.cs() != a0 / g.cs() {
                assert(clear_of(m, entry_at(m, v, b), entry_at(m, v, a0) as int));
            }
        }
    }
}

/// A byte of what a piece of a request is read from.
pub open spec fn source_byte(m: Mapping, v: Volume, source: ReadSource, d: int) -> u8 {
    match source {
        ReadSource::Disk(offset) => (v.file)(offset + d),
        ReadSource::Memory(entry, from) => (v.unpack)(payload(v.file, entry, m.geometry))[from + d],
        ReadSource::Backing(offset) => (v.below)(offset + d),
        ReadSource::Zero => 0,
    }
}

/// Every piece of a read is what the guest sees there.
pub proof fn a_read_shows_what_the_guest_sees(
    m: Mapping,
    v: Volume,
    address: u64,
    count: usize,
    done: usize,
    data: ClusterData,
    d: int,
)
    requires
        m.wf(),
        done < requests::request_len(m.geometry, address, count),
        m.lookup((address + done) as u64) == Lookup::Found(data),
        0 <= d < requests::piece_len(m.geometry, address, count, done),
    ensures
        source_byte(m, v, requests::source_of(m, (address + done) as u64, data), d) == guest(
            m,
            v,
            address + done + d,
        ),
{
    let g = m.geometry;
    let a = (address + done) as u64;
    let b = a + d;
    g.bounds();
    requests::pieces_cover_the_request(g, address, count, done);
    lookups_find_the_entry(m, v, a);
    lemma_mod_bound(a as int, g.cs());
    lemma_fundamental_div_mod(a as int, g.cs());
    let q = a as int / g.cs();
    assert(g.cs() * q == q * g.cs()) by (nonlinear_arith);
    lemma_fundamental_div_mod_converse(b, g.cs(), q, a as int % g.cs() + d);
    geometry::entries_are_clusters(g, a as int, b);
    entry_facts(m, v, a as int);
    assert(entry_at(m, v, b) == entry_at(m, v, a as int));
}

/// Writing one piece and then the next is writing both.
pub proof fn pieces_make_up_a_write(
    m: Mapping,
    v: Volume,
    m1: Mapping,
    v1: Volume,
    m2: Mapping,
    v2: Volume,
    a: int,
    first: Seq<u8>,
    second: Seq<u8>,
)
    requires
        wrote(m, v, m1, v1, a, first),
        wrote(m1, v1, m2, v2, a + first.len(), second),
    ensures
        wrote(m, v, m2, v2, a, first + second),
{
    let data = first + second;
    assert forall|b: int| covered(m, b) implies #[trigger] guest(m2, v2, b) == (
    if a <= b < a + data.len() {
        data[b - a]
    } else {
        guest(m, v, b)
    }) by {
        assert(guest(m1, v1, b) == (if a <= b < a + first.len() {
            first[b - a]
        } else {
            guest(m, v, b)
        }));
        assert(covered(m1, b));
        assert(guest(m2, v2, b) == (if a + first.len() <= b < a + data.len() {
            second[b - a - first.len()]
        } else {
            guest(m1, v1, b)
        }));
    }
}

/// What was written is read: each piece of a later read has the bytes of the write where the two
/// meet, and elsewhere the bytes that the guest saw before.
pub proof fn what_was_written_is_read(
    m: Mapping,
    v: Volume,
    after: Mapping,
    w: Volume,
    at: u64,
    written_data: Seq<u8>,
    address: u64,
    count: usize,
    done: usize,
    data: ClusterData,
    d: int,
)
    requires
        after.wf(),
        wrote(m, v, after, w, at as int, written_data),
        done < requests::request_len(after.geometry, address, count),
        after.lookup((address + done) as u64) == Lookup::Found(data),
        0 <= d < requests::piece_len(after.geometry, address, count, done),
    ensures
        ({
            let b = address + done + d;
            source_byte(after, w, requests::source_of(after, (address + done) as u64, data), d)
                == if at <= b < at + written_data.len() {
                written_data[b - at]
            } else {
                guest(m, v, b)
            }
        }),
{
    let b = address + done + d;
    a_read_shows_what_the_guest_sees(after, w, address, count, done, data, d);
    requests::pieces_cover_the_request(after.geometry, address, count, done);
    lookups_find_the_entry(after, w, (address + done) as u64);
    let g = m.geometry;
    g.bounds();
    let a = (address + done) as int;
    lemma_mod_bound(a, g.cs());
    lemma_fundamental_div_mod(a, g.cs());
    let q = a / g.cs();
    assert(g.cs() * q == q * g.cs()) by (nonlinear_arith);
    lemma_fundamental_div_mod_converse(b, g.cs(), q, a % g.cs() + d);
    assert(covered(m, b));
    assert(guest(after, w, b) == (if at <= b < at + written_data.len() {
        written_data[b - at]
    } else {
        guest(m, v, b)
    }));
}

/// A table in memory is the one in the file.
pub open spec fn is_loaded(m: Mapping, v: Volume, k: int, values: Seq<u64>) -> bool {
    &&& values.len() == m.geometry.entries()
    &&& forall|j: int|
        0 <= j < values.len() ==> #[trigger] values[j] == qcow::map::decoded(
            raw_entry(v.file, m.l1_table@[k] + 8 * j),
        )
}

/// Reading a table into memory, or giving up one that is in the file as it is in memory, changes
/// nothing for the guest.
pub proof fn tables_in_memory_do_not_matter(m: Mapping, after: Mapping, v: Volume, k: int)
    requires
        m.wf(),
        after.wf(),
        after.geometry == m.geometry,
        after.has_backing == m.has_backing,
        after.l1_table@ == m.l1_table@,
        !m.cached().contains_key(k),
        after.cached() == m.cached().insert(k, after.cached()[k]),
        is_loaded(m, v, k, after.cached()[k].values),
    ensures
        forall|a: int|
            covered(m, a) ==> #[trigger] entry_at(after, v, a) == entry_at(
                m,
                v,
                a,
            ) && guest(after, v, a) == guest(m, v, a),
        tidy(m, v) == tidy(after, v),
{
    assert forall|a: int| covered(m, a) implies #[trigger] entry_at(
        after,
        v,
        a,
    ) == entry_at(m, v, a) && guest(after, v, a) == guest(m, v, a) by {
        entry_facts(m, v, a);
        assert(after.cached().contains_key(k));
        let j = m.geometry.l2_of(a);
        if m.geometry.l1_of(a) == k {
            assert(after.cached()[k].values[j] == qcow::map::decoded(
                raw_entry(v.file, m.l1_table@[k] + 8 * j),
            ));
        }
    }
    assert forall|a: int| covered(after, a) implies #[trigger] entry_at(m, v, a)
        == entry_at(after, v, a) by {
        assert(covered(m, a));
        assert(entry_at(after, v, a) == entry_at(m, v, a));
    }
    if tidy(m, v) {
        assert(tidy(after, v));
    }
    if tidy(after, v) {
        assert(tidy(m, v));
    }
}

/// The mark of a used cluster says nothing of where a payload is.
proof fn same_payload(entry: u64, g: Geometry)
    requires
        g.wf(),
        entry & qcow::COMPRESSED_FLAG != 0,
    ensures
        ({
            let e = entry & !qcow::CLUSTER_USED_FLAG;
            &&& e & qcow::COMPRESSED_FLAG != 0
            &&& e != 0
            &&& !qcow::map::is_plain(e)
            &&& !qcow::map::is_plain(entry)
            &&& geometry::payload_offset(e, g.cluster_bits) == geometry::payload_offset(
                entry,
                g.cluster_bits,
            )
            &&& geometry::payload_len(e, g.cluster_bits) == geometry::payload_len(
                entry,
                g.cluster_bits,
            )
        }),
{
    let e = entry & !qcow::CLUSTER_USED_FLAG;
    assert(e & 0x4000_0000_0000_0000u64 != 0 && e != 0 && (e == entry || entry == e
        + 0x8000_0000_0000_0000u64) && e & 0x00ff_ffff_ffff_fe00u64 != e && entry
        & 0x00ff_ffff_ffff_fe00u64 != entry) by (bit_vector)
        requires
            e == entry & !0x8000_0000_0000_0000u64,
            entry & 0x4000_0000_0000_0000u64 != 0,
    ;
    if e != entry {
        let o = geometry::offset_bits(g.cluster_bits);
        let r = (g.cluster_bits - 8) as nat;
        let a = pow2(o) as int;
        let b = pow2(r) as int;
        lemma_pow2_pos(o);
        lemma_pow2_pos(r);
        lemma_pow2_adds(o, r);
        lemma2_to64_rest();
        assert(a * b == 0x4000_0000_0000_0000);
        assert(entry == e + (2 * b) * a && (2 * b) * a == a * (2 * b)) by (nonlinear_arith)
            requires
                a * b == 0x4000_0000_0000_0000,
                entry == e + 0x8000_0000_0000_0000u64,
        ;
        lemma_mod_multiples_vanish(2 * b, e as int, a);
        lemma_hoist_over_denominator(e as int, 2 * b, a as nat);
        let q = e as int / a;
        assert(q + 2 * b == b * 2 + q);
        lemma_mod_multiples_vanish(2, q, b);
    }
}

/// Writing a table that is in memory to its cluster changes nothing for the guest.
pub proof fn writing_a_table_changes_nothing(m: Mapping, v: Volume, w: Volume, k: int)
    requires
        m.wf(),
        tidy(m, v),
        m.cached().contains_key(k),
        changed_in(v, w, m.geometry, Some(m.l1_table@[k]), None),
    ensures
        forall|a: int|
            covered(m, a) ==> #[trigger] entry_at(m, w, a) == entry_at(m, v, a) && guest(m, w, a)
                == guest(m, v, a),
        tidy(m, w),
{
    let g = m.geometry;
    m.cached_wf(k);
    let c = Some(m.l1_table@[k]);
    assert forall|a: int| covered(m, a) implies #[trigger] entry_at(m, w, a) == entry_at(m, v, a)
        && guest(m, w, a) == guest(m, v, a) by {
        entry_facts(m, v, a);
        let l = g.l1_of(a);
        let j = g.l2_of(a);
        if m.l1_table@[l] != 0 && !m.cached().contains_key(l) {
            let at = m.l1_table@[l] + 8 * j;
            assert(l != k);
            assert(l < k ==> apart(
                m.l1_table@[l] as int,
                g.cs(),
                m.l1_table@[k] as int,
                g.cs(),
            ));
            assert(k < l ==> apart(
                m.l1_table@[k] as int,
                g.cs(),
                m.l1_table@[l] as int,
                g.cs(),
            ));
            assert(Seq::new(8, |i: int| (w.file)(at + i)) =~= Seq::new(
                8,
                |i: int| (v.file)(at + i),
            ));
        }
        assert(clear_of(m, entry_at(m, v, a), m.l1_table@[k] as int));
        same_byte(m, v, w, c, None, entry_at(m, v, a), a);
    }
}

/// The file has the entries of a table that is in memory.
pub open spec fn is_stored(m: Mapping, v: Volume, k: int) -> bool {
    forall|j: int|
        0 <= j < m.geometry.entries() ==> raw_entry(v.file, #[trigger] (m.l1_table@[k] + 8 * j))
            == qcow::map::stored(m.cached()[k].values[j])
}

/// Two entries stand for the same part of the file.
pub open spec fn same_place(g: Geometry, e: u64, f: u64) -> bool {
    &&& qcow::map::is_plain(f) == qcow::map::is_plain(e)
    &&& qcow::map::is_plain(f) ==> f == e
    &&& (f & qcow::COMPRESSED_FLAG != 0) == (e & qcow::COMPRESSED_FLAG != 0)
    &&& e & qcow::COMPRESSED_FLAG != 0 ==> geometry::payload_offset(f, g.cluster_bits)
        == geometry::payload_offset(e, g.cluster_bits) && geometry::payload_len(f, g.cluster_bits)
        == geometry::payload_len(e, g.cluster_bits)
}

/// A table that is in the file can be given up: the guest sees what it saw before.
pub proof fn a_stored_table_can_be_given_up(m: Mapping, after: Mapping, v: Volume, k: int)
    requires
        m.wf(),
        after.wf(),
        tidy(m, v),
        after.geometry == m.geometry,
        after.has_backing == m.has_backing,
        after.l1_table@ == m.l1_table@,
        m.cached().contains_key(k),
        after.cached() == m.cached().remove(k),
        is_stored(m, v, k),
    ensures
        forall|a: int| covered(m, a) ==> #[trigger] guest(after, v, a) == guest(m, v, a),
        forall|a: int|
            covered(m, a) ==> same_place(
                m.geometry,
                entry_at(m, v, a),
                #[trigger] entry_at(after, v, a),
            ),
        tidy(after, v),
{
    let g = m.geometry;
    m.cached_wf(k);
    assert forall|a: int| covered(m, a) implies ({
        let e = entry_at(m, v, a);
        let f = #[trigger] entry_at(after, v, a);
        byte_of(after, v, f, a) == byte_of(m, v, e, a) && same_place(g, e, f)
    }) by {
        entry_facts(m, v, a);
        let e = entry_at(m, v, a);
        if g.l1_of(a) == k {
            let j = g.l2_of(a);
            assert(raw_entry(v.file, m.l1_table@[k] + 8 * j) == qcow::map::stored(
                m.cached()[k].values[j],
            ));
            qcow::map::tables_read_back(e);
            if e & qcow::COMPRESSED_FLAG != 0 {
                same_payload(e, g);
                let f = e & !qcow::CLUSTER_USED_FLAG;
                assert(payload(v.file, f, g) =~= payload(v.file, e, g));
            }
        }
    }
    assert forall|a: int| covered(m, a) implies #[trigger] guest(after, v, a) == guest(m, v, a) by {
        let f = entry_at(after, v, a);
    }
    assert(tidy(after, v));
}

/// A byte of the file is one that the guest's bytes come from.
pub open spec fn used(m: Mapping, v: Volume, x: int) -> bool {
    ||| exists|k: int|
        0 <= k < m.l1_table@.len() && #[trigger] m.l1_table@[k] != 0 && m.l1_table@[k] <= x
            < m.l1_table@[k] + m.geometry.cs()
    ||| exists|a: int| covered(m, a) && !clear_of_byte(m, #[trigger] entry_at(m, v, a), x)
}

/// What an entry stands for does not come from a byte of the file.
pub open spec fn clear_of_byte(m: Mapping, entry: u64, x: int) -> bool {
    &&& qcow::map::is_plain(entry) ==> !(entry <= x < entry + m.geometry.cs())
    &&& entry & qcow::COMPRESSED_FLAG != 0 ==> !(geometry::payload_offset(
        entry,
        m.geometry.cluster_bits,
    ) <= x < geometry::payload_offset(entry, m.geometry.cluster_bits) + geometry::payload_len(
        entry,
        m.geometry.cluster_bits,
    ))
}

/// Every cluster that is used is counted.
pub open spec fn counts_cover(m: Mapping, v: Volume, count: spec_fn(int) -> int) -> bool {
    forall|x: int| #[trigger] used(m, v, x) ==> count(x / m.geometry.cs()) > 0
}

/// Where every cluster that is used is counted, one with a count of zero is used by nothing.
pub proof fn uncounted_clusters_are_fresh(
    m: Mapping,
    v: Volume,
    count: spec_fn(int) -> int,
    c: int,
)
    requires
        m.wf(),
        counts_cover(m, v, count),
        c >= 0,
        c % m.geometry.cs() == 0,
        count(c / m.geometry.cs()) == 0,
    ensures
        fresh(m, v, c),
{
    let g = m.geometry;
    g.bounds();
    assert forall|x: int| c <= x < c + g.cs() implies !(#[trigger] used(m, v, x)) by {
        lemma_fundamental_div_mod(c, g.cs());
        let q = c / g.cs();
        assert(g.cs() * q == q * g.cs()) by (nonlinear_arith);
        lemma_fundamental_div_mod_converse(x, g.cs(), q, x - c);
    }
    assert forall|k: int| 0 <= k < m.l1_table@.len() && #[trigger] m.l1_table@[k] != 0 implies apart(
        m.l1_table@[k] as int,
        g.cs(),
        c,
        g.cs(),
    ) by {
        let t = m.l1_table@[k] as int;
        let x = if t <= c {
            c
        } else {
            t
        };
        if !apart(t, g.cs(), c, g.cs()) {
            assert(used(m, v, x));
        }
    }
    assert forall|a: int| covered(m, a) implies clear_of(m, #[trigger] entry_at(m, v, a), c) by {
        entry_facts(m, v, a);
        let e = entry_at(m, v, a);
        if e & qcow::COMPRESSED_FLAG != 0 {
            geometry::payload_bounds(e, g.cluster_bits);
        }
        let start = if qcow::map::is_plain(e) {
            e as int
        } else {
            geometry::payload_offset(e, g.cluster_bits)
        };
        let x = if start <= c {
            c
        } else {
            start
        };
        if !clear_of(m, e, c) {
            assert(!clear_of_byte(m, e, x));
            assert(used(m, v, x));
        }
    }
}

/// A count is that of a cluster which a table has moved away from.
pub open spec fn is_left(m: Mapping, address: u64, table: Option<u64>, i: int) -> bool {
    table is Some && m.l1_table@[m.i(address)] != 0 && i == m.l1_table@[m.i(address)] as int
        / m.geometry.cs()
}

/// Counting the new clusters of a write, and no longer the one that its table has moved away from,
/// every cluster that is used is counted again.
pub proof fn counts_keep_up(
    m: Mapping,
    v: Volume,
    after: Mapping,
    w: Volume,
    address: u64,
    entry: u64,
    c: Option<u64>,
    table: Option<u64>,
    count: spec_fn(int) -> int,
    counted: spec_fn(int) -> int,
)
    requires
        m.wf(),
        tidy(m, v),
        m.covers(address),
        m.cached().contains_key(m.i(address)) || m.l1_table@[m.i(address)] == 0,
        remapped(m, after, address, entry, table),
        both_fresh(m, v, c, table),
        changed_in(v, w, m.geometry, c, table),
        entry == 0 || entry == qcow::ZERO_FLAG || (qcow::map::is_plain(entry) && c == Some(entry)),
        m.l1_table@[m.i(address)] as int % m.geometry.cs() == 0,
        counts_cover(m, v, count),
        forall|x: int|
            within(x, c, m.geometry) || within(x, table, m.geometry) ==> counted(
                #[trigger] (x / m.geometry.cs()),
            ) > 0,
        forall|i: int|
            count(i) > 0 && !is_left(m, address, table, i) ==> #[trigger] counted(i) > 0,
    ensures
        counts_cover(after, w, counted),
{
    let g = m.geometry;
    g.bounds();
    let a0 = address as int;
    let left = m.l1_table@[m.i(address)] as int;
    entry_facts(m, v, a0);
    after_remapping(m, v, after, w, address, entry, c, table);
    if qcow::map::is_plain(entry) {
        qcow::map::plain_bounds(entry);
    }
    assert forall|x: int| #[trigger] used(after, w, x) implies counted(x / g.cs()) > 0 by {
        if !within(x, c, g) && !within(x, table, g) {
            let l1 = after.l1_table@;
            if exists|k: int|
                0 <= k < l1.len() && #[trigger] l1[k] != 0 && l1[k] <= x < l1[k] + g.cs() {
                let k = choose|k: int|
                    0 <= k < l1.len() && #[trigger] l1[k] != 0 && l1[k] <= x < l1[k] + g.cs();
                assert(table is None || k != m.i(address));
                assert(m.l1_table@[k] == l1[k]);
                assert(used(m, v, x));
                if table is Some && left != 0 {
                    let i = m.i(address);
                    assert(k < i ==> apart(
                        m.l1_table@[k] as int,
                        g.cs(),
                        m.l1_table@[i] as int,
                        g.cs(),
                    ));
                    assert(i < k ==> apart(
                        m.l1_table@[i] as int,
                        g.cs(),
                        m.l1_table@[k] as int,
                        g.cs(),
                    ));
                    not_in_cluster(g, left, x);
                }
            } else {
                let b = choose|b: int|
                    covered(after, b) && !clear_of_byte(after, #[trigger] entry_at(after, w, b), x);
                assert(covered(m, b));
                entry_facts(m, v, b);
                assert(b / g.cs() != a0 / g.cs());
                assert(entry_at(after, w, b) == entry_at(m, v, b));
                assert(used(m, v, x));
                if table is Some && left != 0 {
                    assert(clear_of(m, entry_at(m, v, b), m.l1_table@[m.i(address)] as int));
                    not_in_cluster(g, left, x);
                }
            }
        }
    }
}

/// A byte outside an aligned cluster belongs to another one.
proof fn not_in_cluster(g: Geometry, c: int, x: int)
    requires
        g.wf(),
        c % g.cs() == 0,
        x < c || c + g.cs() <= x,
    ensures
        x / g.cs() != c / g.cs(),
{
    g.bounds();
    lemma_fundamental_div_mod(c, g.cs());
    lemma_fundamental_div_mod(x, g.cs());
    lemma_mod_bound(x, g.cs());
}

} // verus!
