//! Which clusters of the file are free, which are set aside, and how that agrees with the counts.
//!
//! Every cluster that the tables refer to is counted at least as often as they do. The clusters that
//! are not counted are those in the pools, each listed once, and those that are set aside: taken for
//! something that no table refers to, or not yet. So whatever is taken from the pools is used by
//! nothing else, and nothing that is free is lost. Every operation keeps that up.

use vstd::arithmetic::div_mod::*;
use vstd::prelude::*;

use crate::qcow;
use crate::qcow::contents;
use crate::qcow::geometry;
use crate::qcow::map::Dropped;
use crate::qcow::open;
use crate::qcow::place;
use crate::qcow::place::{
    DropStage, Dropping, Layout, Placing, Releasing, Survey, Turn, Zeroing,
};
use crate::qcow::rebuilding;
use crate::qcow::refcount::Pools;
use crate::qcow::transfers::Image;
use crate::qcow::uses;

verus! {

/// What there is to know of the clusters of a file at one moment.
pub struct Books {
    pub image: Image,
    /// How often each cluster is counted, by its index, once the counts that are being set are set.
    pub count: spec_fn(int) -> int,
    pub pools: Pools,
    /// Clusters that are set aside: they hold no data of the guest and no L2 table.
    pub held: Set<u64>,
    /// How many references to each cluster were given up that are still counted.
    pub owed: spec_fn(int) -> int,
    /// The length of the file.
    pub size: int,
}

impl Books {
    pub open spec fn cs(self) -> int {
        self.image.m.geometry.cs()
    }

    /// How often a cluster is counted.
    pub open spec fn counted(self, i: int) -> int {
        (self.count)(i)
    }

    /// How many references to a cluster are counted that were given up.
    pub open spec fn owes(self, i: int) -> int {
        (self.owed)(i)
    }

    /// How often the tables refer to a cluster.
    pub open spec fn uses(self, i: int) -> int {
        uses::uses(self.image.m, self.image.v, i)
    }

    /// The cluster can be used, now or once the file is up to date.
    pub open spec fn is_free(self, x: u64) -> bool {
        self.pools.avail_clusters@.contains(x) || self.pools.unref_clusters@.contains(x)
    }

    /// The cluster is free or set aside.
    pub open spec fn is_listed(self, x: u64) -> bool {
        self.is_free(x) || self.held.contains(x)
    }

    /// A cluster of the file is counted no less often than it is referred to. Where it is not
    /// counted at all, it is free or set aside. There are no counts behind the end of the file.
    pub open spec fn holds_at(self, i: int) -> bool {
        &&& self.owes(i) >= 0
        &&& self.counted(i) >= self.uses(i) + self.owes(i)
        &&& 0 <= i && i * self.cs() < self.size && self.counted(i) == 0 ==> self.is_listed(
            (i * self.cs()) as u64,
        )
        &&& i * self.cs() >= self.size ==> self.counted(i) == 0
    }

    /// A cluster is in one list only. One that is free is not counted, and none that is set aside is
    /// referred to.
    pub open spec fn holds_for(self, x: u64) -> bool {
        let i = x as int / self.cs();
        &&& !(self.pools.avail_clusters@.contains(x) && self.pools.unref_clusters@.contains(x))
        &&& !(self.is_free(x) && self.held.contains(x))
        &&& self.is_listed(x) ==> x as int % self.cs() == 0 && x < self.size
        &&& self.is_free(x) ==> self.counted(i) == 0
        &&& self.held.contains(x) ==> self.uses(i) == 0 && self.owes(i) == 0
    }

    /// No reference to the cluster of an L2 table was given up that is still counted.
    pub open spec fn holds_for_table(self, k: int) -> bool {
        self.image.m.l1_table@[k] != 0 ==> self.owes(self.image.m.l1_table@[k] as int / self.cs())
            == 0
    }

    /// The pools and the counts agree with the tables.
    pub open spec fn sound(self) -> bool {
        &&& self.image.sound()
        &&& rebuilding::is_aligned(self.image.m, self.image.v)
        &&& 0 <= self.size <= u64::MAX
        &&& self.pools.avail_clusters@.no_duplicates()
        &&& self.pools.unref_clusters@.no_duplicates()
        &&& forall|i: int| #[trigger] self.holds_at(i)
        &&& forall|x: u64| #[trigger] self.holds_for(x)
        &&& forall|k: int|
            0 <= k < self.image.m.l1_table@.len() ==> #[trigger] self.holds_for_table(k)
    }
}

/// A multiple of the cluster size is that of its index.
proof fn index_of(x: int, cs: int)
    requires
        0 < cs,
        x % cs == 0,
    ensures
        x / cs * cs == x,
{
    lemma_fundamental_div_mod(x, cs);
    assert(cs * (x / cs) == x / cs * cs) by (nonlinear_arith);
}

/// The index of a cluster is that of its offset.
proof fn clusters_have_indices(i: int, cs: int)
    requires
        0 <= i,
        0 < cs,
    ensures
        0 <= i * cs,
        i * cs / cs == i,
{
    assert(0 <= i * cs) by (nonlinear_arith)
        requires
            0 <= i,
            0 < cs,
    ;
    lemma_fundamental_div_mod_converse(i * cs, cs, i, 0);
}

/// Every cluster that is not counted is tracked, so that it is used again: it is in one of the pools,
/// or it is set aside.
pub proof fn nothing_free_is_lost(b: Books, x: u64)
    requires
        b.sound(),
        x as int % b.cs() == 0,
        x < b.size,
        b.counted(x as int / b.cs()) == 0,
    ensures
        b.is_listed(x),
{
    b.image.m.geometry.bounds();
    let i = x as int / b.cs();
    index_of(x as int, b.cs());
    lemma_div_pos_is_pos(x as int, b.cs());
    assert(b.holds_at(i));
}

/// Nothing that the guest's bytes come from uses a cluster that is free or set aside.
pub proof fn listed_clusters_are_fresh(b: Books, x: u64)
    requires
        b.sound(),
        b.is_listed(x),
    ensures
        contents::fresh(b.image.m, b.image.v, x as int),
        b.uses(x as int / b.cs()) == 0,
        b.owes(x as int / b.cs()) == 0,
        x as int % b.cs() == 0,
        x < b.size,
{
    let m = b.image.m;
    let v = b.image.v;
    m.geometry.bounds();
    let i = x as int / b.cs();
    assert(b.holds_for(x));
    assert(b.holds_at(i));
    uses::uses_begin_at_zero(m, v, i);
    uses::what_is_used_is_referred_to(m, v);
    contents::uncounted_clusters_are_fresh(m, v, |j: int| uses::uses(m, v, j), x as int);
}

/// Two clusters that are free or set aside can be used for data and for a table: nothing else uses
/// them, nor any part of them.
pub proof fn listed_clusters_can_be_used(b: Books, c: u64, table: Option<u64>)
    requires
        b.sound(),
        b.is_listed(c),
        table matches Some(t) ==> b.is_listed(t) && t != c,
    ensures
        contents::both_fresh(b.image.m, b.image.v, Some(c), table),
{
    b.image.m.geometry.bounds();
    listed_clusters_are_fresh(b, c);
    if let Some(t) = table {
        listed_clusters_are_fresh(b, t);
        aligned_clusters_are_apart(c as int, t as int, b.cs());
    }
}

/// Two different clusters have no byte in common.
pub(crate) proof fn aligned_clusters_are_apart(c: int, t: int, cs: int)
    requires
        0 < cs,
        c % cs == 0,
        t % cs == 0,
        c != t,
    ensures
        contents::apart(c, cs, t, cs),
        c / cs != t / cs,
{
    index_of(c, cs);
    index_of(t, cs);
    let p = c / cs;
    let q = t / cs;
    assert(p < q ==> p * cs + cs <= q * cs) by (nonlinear_arith)
        requires
            cs > 0,
    ;
    assert(q < p ==> q * cs + cs <= p * cs) by (nonlinear_arith)
        requires
            cs > 0,
    ;
}

/// A cluster that nothing uses is not referred to.
proof fn fresh_clusters_are_unreferenced(b: Books, c: int)
    requires
        b.image.m.wf(),
        rebuilding::is_aligned(b.image.m, b.image.v),
        contents::fresh(b.image.m, b.image.v, c),
        0 <= c,
        c % b.cs() == 0,
    ensures
        b.uses(c / b.cs()) == 0,
{
    let m = b.image.m;
    let v = b.image.v;
    let cs = b.cs();
    m.geometry.bounds();
    assert forall|k: int| 0 <= k < m.l1_table@.len() implies uses::table_use(
        #[trigger] m.l1_table@[k],
        cs,
        c / cs,
    ) == 0 by {
        index_of(c, cs);
        index_of(m.l1_table@[k] as int, cs);
    }
    assert forall|a: int| contents::covered(m, a) implies uses::entry_use(
        m.geometry,
        #[trigger] contents::entry_at(m, v, a),
        c / cs,
    ) == 0 by {
        clear_entries_do_not_refer(b, a, c);
    }
    uses::unreferenced(m, v, c / cs);
}

/// An entry that has nothing in a cluster does not refer to it.
proof fn clear_entries_do_not_refer(b: Books, a: int, c: int)
    requires
        b.image.m.wf(),
        rebuilding::is_aligned(b.image.m, b.image.v),
        contents::covered(b.image.m, a),
        contents::clear_of(b.image.m, b.image.entry(a), c),
        0 <= c,
        c % b.cs() == 0,
    ensures
        uses::entry_use(b.image.m.geometry, b.image.entry(a), c / b.cs()) == 0,
{
    let g = b.image.m.geometry;
    let cs = b.cs();
    let e = b.image.entry(a);
    g.bounds();
    contents::entry_facts(b.image.m, b.image.v, a);
    index_of(c, cs);
    if qcow::map::is_plain(e) {
        assert(contents::entry_at(b.image.m, b.image.v, a) as int % cs == 0);
        index_of(e as int, cs);
    } else if e & qcow::COMPRESSED_FLAG != 0 {
        geometry::payload_bounds(e, g.cluster_bits);
        let lo = geometry::payload_offset(e, g.cluster_bits);
        let hi = lo + geometry::payload_len(e, g.cluster_bits);
        let i = c / cs;
        lemma_fundamental_div_mod(lo, cs);
        lemma_fundamental_div_mod(hi - 1, cs);
        lemma_mod_bound(lo, cs);
        lemma_mod_bound(hi - 1, cs);
        let p = lo / cs;
        let q = (hi - 1) / cs;
        if p <= i <= q {
            assert(cs * p <= i * cs && i * cs <= cs * q) by (nonlinear_arith)
                requires
                    p <= i <= q,
                    cs > 0,
            ;
            assert(false);
        }
    }
}

/// Everything but the lists and the counts is as it was.
pub open spec fn same_image(b: Books, after: Books) -> bool {
    after.image == b.image && after.pools.punch_clusters@ == b.pools.punch_clusters@
}

/// A cluster was taken: the last that can be used, or where there is none, one behind the end of the
/// file, which grows by it.
pub open spec fn took(b: Books, after: Books, c: u64) -> bool {
    &&& same_image(b, after)
    &&& after.count == b.count
    &&& after.owed == b.owed
    &&& after.held == b.held.insert(c)
    &&& after.pools.unref_clusters@ == b.pools.unref_clusters@
    &&& if b.pools.avail_clusters@.len() > 0 {
        &&& c == b.pools.avail_clusters@.last()
        &&& after.pools.avail_clusters@ == b.pools.avail_clusters@.drop_last()
        &&& after.size == b.size
    } else {
        &&& after.pools.avail_clusters@ == b.pools.avail_clusters@
        &&& c as int % b.cs() == 0
        &&& b.size <= c < b.size + b.cs()
        &&& after.size == c + b.cs()
        &&& after.size <= u64::MAX
    }
}

/// What is left of a list without its last element.
proof fn without_the_last(s: Seq<u64>)
    requires
        s.len() > 0,
        s.no_duplicates(),
    ensures
        s.drop_last().no_duplicates(),
        forall|x: u64| #[trigger] s.drop_last().contains(x) <==> s.contains(x) && x != s.last(),
{
    let d = s.drop_last();
    assert forall|x: u64| #[trigger] d.contains(x) <==> s.contains(x) && x != s.last() by {
        if d.contains(x) {
            let j = choose|j: int| 0 <= j < d.len() && d[j] == x;
            assert(s[j] == x);
        }
        if s.contains(x) && x != s.last() {
            let j = choose|j: int| 0 <= j < s.len() && s[j] == x;
            assert(d[j] == x);
        }
    }
}

/// Two lists in one.
proof fn two_lists(s: Seq<u64>, t: Seq<u64>)
    ensures
        forall|x: u64| #[trigger] (s + t).contains(x) <==> s.contains(x) || t.contains(x),
        s.no_duplicates() && t.no_duplicates() && (forall|x: u64|
            !(#[trigger] s.contains(x) && t.contains(x))) ==> (s + t).no_duplicates(),
{
    let u = s + t;
    assert forall|x: u64| #[trigger] u.contains(x) <==> s.contains(x) || t.contains(x) by {
        if u.contains(x) {
            let j = choose|j: int| 0 <= j < u.len() && u[j] == x;
            if j < s.len() {
                assert(s[j] == x);
            } else {
                assert(t[j - s.len()] == x);
            }
        }
        if s.contains(x) {
            let j = choose|j: int| 0 <= j < s.len() && s[j] == x;
            assert(u[j] == x);
        }
        if t.contains(x) {
            let j = choose|j: int| 0 <= j < t.len() && t[j] == x;
            assert(u[s.len() + j] == x);
        }
    }
    if s.no_duplicates() && t.no_duplicates() && (forall|x: u64|
        !(#[trigger] s.contains(x) && t.contains(x))) {
        assert forall|j: int, k: int| 0 <= j < u.len() && 0 <= k < u.len() && j != k implies u[j]
            != u[k] by {
            if j < s.len() && k >= s.len() {
                assert(s.contains(u[j]) && t[k - s.len()] == u[k]);
                assert(t.contains(u[k]));
            } else if k < s.len() && j >= s.len() {
                assert(s.contains(u[k]) && t[j - s.len()] == u[j]);
                assert(t.contains(u[j]));
            } else if j >= s.len() {
                assert(t[j - s.len()] == u[j] && t[k - s.len()] == u[k]);
            }
        }
    }
}

/// Taking a cluster keeps the books in order. It was used by nothing, nor was it counted.
pub proof fn taking_a_cluster_keeps_the_books(b: Books, after: Books, c: u64)
    requires
        b.sound(),
        took(b, after, c),
    ensures
        after.sound(),
        !b.held.contains(c),
        contents::fresh(b.image.m, b.image.v, c as int),
        b.counted(c as int / b.cs()) == 0,
{
    let cs = b.cs();
    b.image.m.geometry.bounds();
    let avail = b.pools.avail_clusters@;
    let i0 = c as int / cs;
    assert(b.holds_for(c));
    assert(b.holds_at(i0));
    uses::uses_begin_at_zero(b.image.m, b.image.v, i0);
    if avail.len() > 0 {
        without_the_last(avail);
        assert(avail.contains(c));
    } else {
        index_of(c as int, cs);
    }
    assert forall|x: u64| #[trigger] after.holds_for(x) by {
        assert(b.holds_for(x));
    }
    assert forall|i: int| #[trigger] after.holds_at(i) by {
        assert(b.holds_at(i));
        if avail.len() == 0 && b.size <= i * cs < after.size {
            assert(i == i0) by (nonlinear_arith)
                requires
                    i0 * cs == c,
                    c - cs < i * cs < c + cs,
                    cs > 0,
            ;
        }
    }
    assert forall|k: int| 0 <= k < after.image.m.l1_table@.len() implies #[trigger] after.holds_for_table(
        k,
    ) by {
        assert(b.holds_for_table(k));
    }
    listed_clusters_are_fresh(after, c);
}

/// The count of a cluster that is set aside was set.
pub open spec fn recounted(b: Books, after: Books, c: u64, n: int) -> bool {
    &&& b.held.contains(c)
    &&& n >= 0
    &&& same_image(b, after)
    &&& after.pools == b.pools
    &&& after.held == b.held
    &&& after.owed == b.owed
    &&& after.size == b.size
    &&& forall|i: int| #[trigger]
        after.counted(i) == (if i == c as int / b.cs() {
            n
        } else {
            b.counted(i)
        })
}

/// Counting a cluster that is set aside keeps the books in order.
pub proof fn counting_a_cluster_keeps_the_books(b: Books, after: Books, c: u64, n: int)
    requires
        b.sound(),
        recounted(b, after, c, n),
    ensures
        after.sound(),
{
    let cs = b.cs();
    b.image.m.geometry.bounds();
    let i0 = c as int / cs;
    assert(b.holds_for(c));
    index_of(c as int, cs);
    assert forall|x: u64| #[trigger] after.holds_for(x) by {
        assert(b.holds_for(x));
        assert(after.counted(x as int / cs) == b.counted(x as int / cs) || x as int / cs == i0);
        if b.is_free(x) {
            index_of(x as int, cs);
        }
    }
    assert forall|i: int| #[trigger] after.holds_at(i) by {
        assert(b.holds_at(i));
        assert(after.counted(i) == b.counted(i) || i == i0);
    }
    assert forall|k: int| 0 <= k < after.image.m.l1_table@.len() implies #[trigger] after.holds_for_table(
        k,
    ) by {
        assert(b.holds_for_table(k));
    }
}

/// Clusters that were set aside, and that are not counted any more, can be used once the file is up
/// to date.
pub open spec fn gave_back(b: Books, after: Books, freed: Seq<u64>) -> bool {
    &&& freed.no_duplicates()
    &&& forall|x: u64|
        #[trigger] freed.contains(x) ==> b.held.contains(x) && b.counted(x as int / b.cs()) == 0
    &&& same_image(b, after)
    &&& after.pools.avail_clusters@ == b.pools.avail_clusters@
    &&& after.pools.unref_clusters@ == b.pools.unref_clusters@ + freed
    &&& forall|x: u64| #[trigger]
        after.held.contains(x) <==> b.held.contains(x) && !freed.contains(x)
    &&& after.count == b.count
    &&& after.owed == b.owed
    &&& after.size == b.size
}

/// Giving clusters back keeps the books in order.
pub proof fn giving_back_keeps_the_books(b: Books, after: Books, freed: Seq<u64>)
    requires
        b.sound(),
        gave_back(b, after, freed),
    ensures
        after.sound(),
{
    b.image.m.geometry.bounds();
    let unref = b.pools.unref_clusters@;
    assert forall|x: u64| !(#[trigger] unref.contains(x) && freed.contains(x)) by {
        assert(b.holds_for(x));
    }
    two_lists(unref, freed);
    assert forall|x: u64| #[trigger] after.holds_for(x) by {
        assert(b.holds_for(x));
    }
    assert forall|i: int| #[trigger] after.holds_at(i) by {
        assert(b.holds_at(i));
    }
    assert forall|k: int| 0 <= k < after.image.m.l1_table@.len() implies #[trigger] after.holds_for_table(
        k,
    ) by {
        assert(b.holds_for_table(k));
    }
}

/// The file is up to date.
pub open spec fn synced(b: Books, after: Books) -> bool {
    &&& after.image == b.image
    &&& after.pools.avail_clusters@ == b.pools.avail_clusters@ + b.pools.unref_clusters@
    &&& after.pools.unref_clusters@ == Seq::<u64>::empty()
    &&& after.count == b.count
    &&& after.held == b.held
    &&& after.owed == b.owed
    &&& after.size == b.size
}

/// Bringing the file up to date keeps the books in order: what was free before can now be used.
pub proof fn syncing_keeps_the_books(b: Books, after: Books)
    requires
        b.sound(),
        synced(b, after),
    ensures
        after.sound(),
{
    let avail = b.pools.avail_clusters@;
    let unref = b.pools.unref_clusters@;
    assert forall|x: u64| !(#[trigger] avail.contains(x) && unref.contains(x)) by {
        assert(b.holds_for(x));
    }
    two_lists(avail, unref);
    assert forall|x: u64| #[trigger] after.holds_for(x) by {
        assert(b.holds_for(x));
    }
    assert forall|i: int| #[trigger] after.holds_at(i) by {
        assert(b.holds_at(i));
    }
    assert forall|k: int| 0 <= k < after.image.m.l1_table@.len() implies #[trigger] after.holds_for_table(
        k,
    ) by {
        assert(b.holds_for_table(k));
    }
}

/// The cluster of data that an entry points at.
pub open spec fn data_of(entry: u64) -> Option<u64> {
    if qcow::map::is_plain(entry) {
        Some(entry)
    } else {
        None
    }
}

/// An entry was set. The cluster of data that it points at and the new cluster of its table, where
/// there are any, were set aside before. The cluster that the table was in can be used later. What
/// the entry referred to is still counted.
pub open spec fn set_entry(
    b: Books,
    after: Books,
    address: u64,
    entry: u64,
    table: Option<u64>,
) -> bool {
    let m = b.image.m;
    let g = m.geometry;
    let left = m.l1_table@[m.i(address)];
    let gone = place::table_gone(m, address, table);
    &&& m.covers(address)
    &&& m.cached().contains_key(m.i(address)) || left == 0
    &&& contents::remapped(m, after.image.m, address, entry, table)
    &&& after.image.v == b.image.v
    &&& entry == 0 || entry == qcow::ZERO_FLAG || (qcow::map::is_plain(entry) && b.held.contains(
        entry,
    ) && b.counted(entry as int / g.cs()) > 0)
    &&& table matches Some(t) ==> b.held.contains(t) && data_of(entry) != Some(t)
    &&& after.pools.avail_clusters@ == b.pools.avail_clusters@
    &&& after.pools.unref_clusters@ == (if gone {
        b.pools.unref_clusters@.push(left)
    } else {
        b.pools.unref_clusters@
    })
    &&& after.size == b.size
    &&& forall|x: u64| #[trigger]
        after.held.contains(x) <==> b.held.contains(x) && data_of(entry) != Some(x) && table
            != Some(x)
    &&& forall|i: int| #[trigger]
        after.counted(i) == (if table is Some && i == table->0 as int / g.cs() {
            1
        } else if gone && i == left as int / g.cs() {
            0
        } else {
            b.counted(i)
        })
    &&& forall|i: int| #[trigger]
        after.owes(i) == b.owes(i) + uses::entry_use(g, b.image.entry(address as int), i)
}

/// Where the table of an address has moved to another cluster, nothing uses the one that it was in.
proof fn a_left_cluster_is_fresh(
    b: Books,
    after: Books,
    address: u64,
    entry: u64,
    table: Option<u64>,
)
    requires
        b.sound(),
        set_entry(b, after, address, entry, table),
        place::table_gone(b.image.m, address, table),
    ensures
        contents::fresh(
            after.image.m,
            after.image.v,
            b.image.m.l1_table@[b.image.m.i(address)] as int,
        ),
{
    let m = b.image.m;
    let v = b.image.v;
    let g = m.geometry;
    let n = m.i(address);
    let left = m.l1_table@[n];
    let l1 = after.image.m.l1_table@;
    g.bounds();
    contents::entry_facts(m, v, address as int);
    listed_clusters_are_fresh(b, table->0);
    if let Some(d) = data_of(entry) {
        listed_clusters_are_fresh(b, d);
    }
    assert forall|k: int| 0 <= k < l1.len() && #[trigger] l1[k] != 0 implies contents::apart(
        l1[k] as int,
        g.cs(),
        left as int,
        g.cs(),
    ) by {
        if k == n {
            assert(contents::apart(m.l1_table@[n] as int, g.cs(), table->0 as int, g.cs()));
        } else {
            assert(m.l1_table@[k] == l1[k]);
            assert(k < n ==> contents::apart(
                m.l1_table@[k] as int,
                g.cs(),
                m.l1_table@[n] as int,
                g.cs(),
            ));
            assert(n < k ==> contents::apart(
                m.l1_table@[n] as int,
                g.cs(),
                m.l1_table@[k] as int,
                g.cs(),
            ));
        }
    }
    assert forall|a: int| contents::covered(after.image.m, a) implies contents::clear_of(
        after.image.m,
        #[trigger] contents::entry_at(after.image.m, v, a),
        left as int,
    ) by {
        assert(contents::covered(m, a));
        contents::entries_after(m, v, after.image.m, address, entry, table, a);
        contents::entry_facts(m, v, a);
        if a / g.cs() == address as int / g.cs() {
            if let Some(d) = data_of(entry) {
                qcow::map::plain_bounds(entry);
                assert(contents::apart(m.l1_table@[n] as int, g.cs(), d as int, g.cs()));
            }
        } else {
            assert(contents::clear_of(m, contents::entry_at(m, v, a), m.l1_table@[n] as int));
        }
    }
}

/// Setting an entry leaves the tables sound and everything in its place.
proof fn tables_stay_sound(b: Books, after: Books, address: u64, entry: u64, table: Option<u64>)
    requires
        b.sound(),
        set_entry(b, after, address, entry, table),
    ensures
        after.image.sound(),
        rebuilding::is_aligned(after.image.m, after.image.v),
        contents::both_fresh(b.image.m, b.image.v, data_of(entry), table),
{
    let m = b.image.m;
    let v = b.image.v;
    let g = m.geometry;
    g.bounds();
    contents::entry_facts(m, v, address as int);
    if let Some(d) = data_of(entry) {
        listed_clusters_can_be_used(b, d, table);
    } else if let Some(t) = table {
        listed_clusters_are_fresh(b, t);
    }
    contents::after_remapping(m, v, after.image.m, v, address, entry, data_of(entry), table);
    if let Some(d) = data_of(entry) {
        assert(b.holds_for(d));
    }
    if let Some(t) = table {
        assert(b.holds_for(t));
    }
    assert forall|k: int| 0 <= k < after.image.m.l1_table@.len() implies #[trigger] after.image.m.l1_table@[k] as int
        % g.cs() == 0 by {
        assert(m.l1_table@[k] as int % g.cs() == 0);
    }
    assert forall|a: int|
        contents::covered(after.image.m, a) && qcow::map::is_plain(
            #[trigger] contents::entry_at(after.image.m, v, a),
        ) implies contents::entry_at(after.image.m, v, a) as int % g.cs() == 0 by {
        assert(contents::covered(m, a));
        assert(contents::entry_at(m, v, a) == b.image.entry(a));
    }
}

/// Setting an entry keeps the books in order.
pub proof fn setting_an_entry_keeps_the_books(
    b: Books,
    after: Books,
    address: u64,
    entry: u64,
    table: Option<u64>,
)
    requires
        b.sound(),
        set_entry(b, after, address, entry, table),
    ensures
        after.sound(),
{
    let m = b.image.m;
    let v = b.image.v;
    let g = m.geometry;
    let cs = g.cs();
    let a = address as int;
    let n = m.i(address);
    let left = m.l1_table@[n];
    let gone = place::table_gone(m, address, table);
    let before = b.image.entry(a);
    g.bounds();
    contents::entry_facts(m, v, a);
    tables_stay_sound(b, after, address, entry, table);
    let iold = left as int / cs;
    if let Some(d) = data_of(entry) {
        assert(b.holds_for(d));
        index_of(d as int, cs);
    }
    if let Some(t) = table {
        assert(b.holds_for(t));
        index_of(t as int, cs);
    }
    if left != 0 {
        uses::a_table_is_used(m, v, n);
        assert(m.l1_table@[n] as int % cs == 0);
        index_of(left as int, cs);
        assert(b.holds_for_table(n));
        assert(contents::clear_of(m, contents::entry_at(m, v, a), m.l1_table@[n] as int));
        clear_entries_do_not_refer(b, a, left as int);
        assert(b.holds_at(iold));
        assert(b.holds_for(left));
    }
    if gone {
        a_left_cluster_is_fresh(b, after, address, entry, table);
        fresh_clusters_are_unreferenced(after, left as int);
        let unref = b.pools.unref_clusters@;
        let one = seq![left];
        assert(one[0] == left);
        assert(unref.push(left) =~= unref + one);
        assert forall|x: u64| !(#[trigger] unref.contains(x) && one.contains(x)) by {
            if one.contains(x) {
                assert(x == left);
            }
        }
        two_lists(unref, one);
    }
    assert(0u64 & 0x4000_0000_0000_0000u64 == 0) by (bit_vector);
    assert forall|i: int| #[trigger] after.holds_at(i) by {
        assert(b.holds_at(i));
        uses::uses_after(m, v, after.image.m, address, entry, table, i);
        uses::an_entry_is_used(m, v, a, i);
        assert(after.owes(i) == b.owes(i) + uses::entry_use(g, before, i));
        let now = after.counted(i);
        if data_of(entry) is Some && i == entry as int / cs {
            assert(now >= after.uses(i) + after.owes(i));
        } else if table is Some && i == table->0 as int / cs {
            assert(now >= after.uses(i) + after.owes(i));
        } else if gone && i == iold {
            assert(now >= after.uses(i) + after.owes(i));
        } else {
            assert(now >= after.uses(i) + after.owes(i));
        }
        if now == 0 && 0 <= i && i * cs < b.size {
            clusters_have_indices(i, cs);
            let x = (i * cs) as u64;
            if gone && i == iold {
                assert(after.is_free(left));
            } else {
                assert(b.is_listed(x));
                assert(after.held.contains(x) <==> b.held.contains(x) && data_of(entry) != Some(x)
                    && table != Some(x));
            }
        }
    }
    assert forall|x: u64| #[trigger] after.holds_for(x) by {
        assert(b.holds_for(x));
        let i = x as int / cs;
        assert(b.holds_at(i));
        uses::uses_after(m, v, after.image.m, address, entry, table, i);
        uses::an_entry_is_used(m, v, a, i);
        uses::uses_begin_at_zero(after.image.m, v, i);
        assert(after.owes(i) == b.owes(i) + uses::entry_use(g, before, i));
        assert(after.counted(i) == after.counted(i));
        if b.is_listed(x) {
            index_of(x as int, cs);
        }
    }
    assert forall|k: int| 0 <= k < after.image.m.l1_table@.len() implies #[trigger] after.holds_for_table(
        k,
    ) by {
        let at = after.image.m.l1_table@[k];
        if at != 0 {
            let i = at as int / cs;
            assert(after.owes(i) == b.owes(i) + uses::entry_use(g, before, i));
            if table is Some && k == n {
                uses::an_entry_is_used(m, v, a, i);
            } else {
                assert(m.l1_table@[k] == at);
                assert(m.l1_table@[k] as int % cs == 0);
                assert(b.holds_for_table(k));
                assert(contents::clear_of(m, contents::entry_at(m, v, a), m.l1_table@[k] as int));
                clear_entries_do_not_refer(b, a, at as int);
            }
        }
    }
}

/// A cluster of data was given up: its entry is gone, and its count is one less. Where it is not
/// counted any more, it is set aside until its storage is.
pub open spec fn gave_up_data(b: Books, after: Books, address: u64, c: u64) -> bool {
    let m = b.image.m;
    let i0 = c as int / b.cs();
    &&& m.covers(address)
    &&& m.cached().contains_key(m.i(address))
    &&& contents::remapped(m, after.image.m, address, 0, None)
    &&& after.image.v == b.image.v
    &&& qcow::map::is_plain(c)
    &&& b.image.entry(address as int) == c
    &&& after.pools.avail_clusters@ == b.pools.avail_clusters@
    &&& after.pools.unref_clusters@ == b.pools.unref_clusters@
    &&& after.held == (if b.counted(i0) == 1 {
        b.held.insert(c)
    } else {
        b.held
    })
    &&& after.owed == b.owed
    &&& after.size == b.size
    &&& forall|i: int| #[trigger]
        after.counted(i) == (if i == i0 {
            b.counted(i) - 1
        } else {
            b.counted(i)
        })
}

/// Giving up a cluster of data keeps the books in order.
pub proof fn giving_up_data_keeps_the_books(b: Books, after: Books, address: u64, c: u64)
    requires
        b.sound(),
        gave_up_data(b, after, address, c),
    ensures
        after.sound(),
        b.counted(c as int / b.cs()) >= 1,
{
    let m = b.image.m;
    let v = b.image.v;
    let g = m.geometry;
    let cs = g.cs();
    let a = address as int;
    let i0 = c as int / cs;
    g.bounds();
    contents::entry_facts(m, v, a);
    contents::after_remapping(m, v, after.image.m, v, address, 0, None, None);
    assert(0u64 & 0x4000_0000_0000_0000u64 == 0) by (bit_vector);
    assert(contents::entry_at(m, v, a) as int % cs == 0);
    index_of(c as int, cs);
    lemma_div_pos_is_pos(c as int, cs);
    uses::an_entry_is_used(m, v, a, i0);
    assert(b.holds_at(i0));
    assert(b.holds_for(c));
    assert forall|k: int| 0 <= k < after.image.m.l1_table@.len() implies #[trigger] after.image.m.l1_table@[k] as int
        % cs == 0 by {
        assert(m.l1_table@[k] as int % cs == 0);
    }
    assert forall|x: int|
        contents::covered(after.image.m, x) && qcow::map::is_plain(
            #[trigger] contents::entry_at(after.image.m, v, x),
        ) implies contents::entry_at(after.image.m, v, x) as int % cs == 0 by {
        assert(contents::covered(m, x));
        assert(contents::entry_at(m, v, x) == b.image.entry(x));
    }
    assert forall|i: int| #[trigger] after.holds_at(i) by {
        assert(b.holds_at(i));
        uses::uses_after(m, v, after.image.m, address, 0, None, i);
        assert(after.counted(i) == b.counted(i) || i == i0);
    }
    assert forall|x: u64| #[trigger] after.holds_for(x) by {
        assert(b.holds_for(x));
        let i = x as int / cs;
        assert(b.holds_at(i));
        uses::uses_after(m, v, after.image.m, address, 0, None, i);
        uses::uses_begin_at_zero(after.image.m, v, i);
        uses::an_entry_is_used(m, v, a, i);
        assert(after.counted(i) == b.counted(i) || i == i0);
        if b.is_listed(x) {
            index_of(x as int, cs);
        }
    }
    assert forall|k: int| 0 <= k < after.image.m.l1_table@.len() implies #[trigger] after.holds_for_table(
        k,
    ) by {
        assert(b.holds_for_table(k));
    }
}

/// A reference to a cluster that was given up is not counted any more. Where it was the last, the
/// cluster can be used once the file is up to date.
pub open spec fn lowered(b: Books, after: Books, h: u64) -> bool {
    let i0 = h as int / b.cs();
    &&& h as int % b.cs() == 0
    &&& b.owes(i0) > 0
    &&& after.image == b.image
    &&& after.pools.avail_clusters@ == b.pools.avail_clusters@
    &&& after.pools.unref_clusters@ == (if b.counted(i0) == 1 {
        b.pools.unref_clusters@.push(h)
    } else {
        b.pools.unref_clusters@
    })
    &&& after.held == b.held
    &&& after.size == b.size
    &&& forall|i: int| #[trigger]
        after.counted(i) == (if i == i0 {
            b.counted(i) - 1
        } else {
            b.counted(i)
        })
    &&& forall|i: int| #[trigger]
        after.owes(i) == (if i == i0 {
            b.owes(i) - 1
        } else {
            b.owes(i)
        })
}

/// Lowering the count of a cluster keeps the books in order. There was a count to lower.
pub proof fn lowering_a_count_keeps_the_books(b: Books, after: Books, h: u64)
    requires
        b.sound(),
        lowered(b, after, h),
    ensures
        after.sound(),
        b.counted(h as int / b.cs()) >= 1,
{
    let m = b.image.m;
    let v = b.image.v;
    let cs = b.cs();
    let i0 = h as int / cs;
    m.geometry.bounds();
    index_of(h as int, cs);
    lemma_div_pos_is_pos(h as int, cs);
    uses::uses_begin_at_zero(m, v, i0);
    assert(b.holds_at(i0));
    assert(b.holds_for(h));
    let unref = b.pools.unref_clusters@;
    let one = seq![h];
    assert(one[0] == h);
    assert(unref.push(h) =~= unref + one);
    two_lists(unref, one);
    if b.counted(i0) == 1 {
        assert forall|x: u64| !(#[trigger] unref.contains(x) && one.contains(x)) by {
            if one.contains(x) {
                assert(x == h);
            }
        }
    }
    assert forall|i: int| #[trigger] after.holds_at(i) by {
        assert(b.holds_at(i));
        assert(after.counted(i) == b.counted(i) || i == i0);
        assert(after.owes(i) == b.owes(i) || i == i0);
    }
    assert forall|x: u64| #[trigger] after.holds_for(x) by {
        assert(b.holds_for(x));
        let i = x as int / cs;
        assert(after.counted(i) == b.counted(i) || i == i0);
        assert(after.owes(i) == b.owes(i) || i == i0);
        if b.is_listed(x) {
            index_of(x as int, cs);
        }
    }
    assert forall|k: int| 0 <= k < after.image.m.l1_table@.len() implies #[trigger] after.holds_for_table(
        k,
    ) by {
        assert(b.holds_for_table(k));
        let i = m.l1_table@[k] as int / cs;
        assert(after.owes(i) == b.owes(i) || i == i0);
    }
}

/// Only the image changed, and every entry of it stands for what it stood for.
pub open spec fn same_places(b: Books, after: Books) -> bool {
    let m = b.image.m;
    &&& after.count == b.count
    &&& after.pools == b.pools
    &&& after.held == b.held
    &&& after.owed == b.owed
    &&& after.size == b.size
    &&& after.image.sound()
    &&& after.image.m.geometry == m.geometry
    &&& after.image.m.l1_table@ == m.l1_table@
    &&& forall|a: int|
        contents::covered(m, a) ==> contents::same_place(
            m.geometry,
            contents::entry_at(m, b.image.v, a),
            #[trigger] contents::entry_at(after.image.m, after.image.v, a),
        )
}

/// Where nothing moves, the books stay in order.
pub proof fn staying_in_place_keeps_the_books(b: Books, after: Books)
    requires
        b.sound(),
        same_places(b, after),
    ensures
        after.sound(),
{
    let m = b.image.m;
    let v = b.image.v;
    assert forall|a: int|
        contents::covered(after.image.m, a) && qcow::map::is_plain(
            #[trigger] contents::entry_at(after.image.m, after.image.v, a),
        ) implies contents::entry_at(after.image.m, after.image.v, a) as int % b.cs() == 0 by {
        assert(contents::covered(m, a));
        assert(contents::entry_at(m, v, a) as int % b.cs() == 0);
    }
    assert forall|k: int| 0 <= k < after.image.m.l1_table@.len() implies #[trigger] after.image.m.l1_table@[k] as int
        % b.cs() == 0 by {
        assert(m.l1_table@[k] as int % b.cs() == 0);
    }
    assert forall|i: int| #[trigger] after.holds_at(i) by {
        assert(b.holds_at(i));
        uses::same_uses(m, v, after.image.m, after.image.v, i);
    }
    assert forall|x: u64| #[trigger] after.holds_for(x) by {
        assert(b.holds_for(x));
        uses::same_uses(m, v, after.image.m, after.image.v, x as int / b.cs());
    }
    assert forall|k: int| 0 <= k < after.image.m.l1_table@.len() implies #[trigger] after.holds_for_table(
        k,
    ) by {
        assert(b.holds_for_table(k));
    }
}

/// The count of a cluster once counts were set, in order.
pub open spec fn after_setting(b: Books, counts: Seq<(u64, u16)>, i: int) -> int
    decreases counts.len(),
{
    if counts.len() == 0 {
        b.counted(i)
    } else if counts.last().0 as int / b.cs() == i {
        counts.last().1 as int
    } else {
        after_setting(b, counts.drop_last(), i)
    }
}

/// The tables point at an entry. The clusters that they point at now were set aside before, and what
/// has to be counted is counted. What the entry stood for is still counted.
pub open spec fn pointed(
    b: Books,
    after: Books,
    before: Layout,
    now: Layout,
    address: u64,
    entry: u64,
    table: Option<u64>,
) -> bool {
    let m = b.image.m;
    &&& before.mapping == m
    &&& before.pools == b.pools
    &&& now.mapping == after.image.m
    &&& now.pools == after.pools
    &&& after.image.v == b.image.v
    &&& place::pointed(before, now, address, entry, table)
    &&& data_of(entry) matches Some(d) ==> b.held.contains(d)
    &&& table matches Some(t) ==> b.held.contains(t) && data_of(entry) != Some(t)
    &&& after.size == b.size
    &&& forall|x: u64| #[trigger]
        after.held.contains(x) <==> b.held.contains(x) && data_of(entry) != Some(x) && table
            != Some(x)
    &&& forall|i: int| #[trigger]
        after.counted(i) == after_setting(b, place::counts_for(m, address, table), i)
    &&& forall|i: int| #[trigger]
        after.owes(i) == b.owes(i) + uses::entry_use(
            m.geometry,
            b.image.entry(address as int),
            i,
        )
}

/// What setting the counts of a changed entry comes to.
proof fn counts_of_an_entry(b: Books, address: u64, table: Option<u64>, i: int)
    ensures
        ({
            let m = b.image.m;
            let left = m.l1_table@[m.i(address)];
            after_setting(b, place::counts_for(m, address, table), i) == (if table is Some && i
                == table->0 as int / b.cs() {
                1
            } else if place::table_gone(m, address, table) && i == left as int / b.cs() {
                0
            } else {
                b.counted(i)
            })
        }),
{
    let m = b.image.m;
    let counts = place::counts_for(m, address, table);
    reveal_with_fuel(after_setting, 3);
    if let Some(t) = table {
        if place::table_gone(m, address, table) {
            assert(counts.drop_last() =~= seq![(m.l1_table@[m.i(address)], 0u16)]);
            assert(counts.drop_last().drop_last() =~= Seq::<(u64, u16)>::empty());
        } else {
            assert(counts =~= seq![(t, 1u16)]);
            assert(counts.drop_last() =~= Seq::<(u64, u16)>::empty());
        }
    } else {
        assert(counts =~= Seq::<(u64, u16)>::empty());
    }
}

/// Pointing the tables at an entry sets it.
proof fn pointing_sets_an_entry(
    b: Books,
    after: Books,
    before: Layout,
    now: Layout,
    address: u64,
    entry: u64,
    table: Option<u64>,
)
    requires
        b.sound(),
        now.wf(),
        pointed(b, after, before, now, address, entry, table),
        b.image.m.covers(address),
        b.image.m.cached().contains_key(b.image.m.i(address))
            || b.image.m.l1_table@[b.image.m.i(address)] == 0,
        entry == 0 || entry == qcow::ZERO_FLAG || (qcow::map::is_plain(entry) && b.counted(
            entry as int / b.cs(),
        ) > 0),
    ensures
        set_entry(b, after, address, entry, table),
{
    contents::entry_facts(b.image.m, b.image.v, address as int);
    assert forall|i: int| #[trigger] after.counted(i) == (if table is Some && i == table->0 as int
        / b.cs() {
        1
    } else if place::table_gone(b.image.m, address, table) && i
        == b.image.m.l1_table@[b.image.m.i(address)] as int / b.cs() {
        0
    } else {
        b.counted(i)
    }) by {
        counts_of_an_entry(b, address, table, i);
    }
}

/// Finding a place for data keeps the books in order: its cluster was used by nothing, nor was that
/// of its table, and the one that the table was in can be used later.
pub proof fn a_placing_keeps_the_books(
    b: Books,
    after: Books,
    before: Layout,
    now: Layout,
    p: Placing,
    next: Placing,
    table: Option<u64>,
    r: Turn,
)
    requires
        b.sound(),
        now.wf(),
        p.ready(b.image.m, table),
        p.repointed(&next, table, before, now, r),
        b.counted(p.data as int / b.cs()) > 0,
        pointed(b, after, before, now, p.address, p.data, table),
    ensures
        after.sound(),
        contents::both_fresh(b.image.m, b.image.v, Some(p.data), table),
{
    pointing_sets_an_entry(b, after, before, now, p.address, p.data, table);
    setting_an_entry_keeps_the_books(b, after, p.address, p.data, table);
    listed_clusters_can_be_used(b, p.data, table);
}

/// Marking a cluster of the guest as zero keeps the books in order.
pub proof fn a_mark_keeps_the_books(
    b: Books,
    after: Books,
    before: Layout,
    now: Layout,
    z: Zeroing,
    next: Zeroing,
    table: Option<u64>,
    r: Turn,
)
    requires
        b.sound(),
        now.wf(),
        match table {
            Some(t) => z.ready(b.image.m, t),
            None => b.image.m.zero_plan(z.dropping.address) is Nothing,
        },
        z.marked(&next, table, before, now, r),
        pointed(b, after, before, now, z.dropping.address, qcow::ZERO_FLAG, table),
    ensures
        after.sound(),
{
    let address = z.dropping.address;
    pointing_sets_an_entry(b, after, before, now, address, qcow::ZERO_FLAG, table);
    setting_an_entry_keeps_the_books(b, after, address, qcow::ZERO_FLAG, table);
}

/// A step of giving up what is stored for a cluster of the guest was taken. The count of a cluster
/// of data is lowered before its entry goes; that of a payload, and of a cluster with nothing in it,
/// later or not at all. A cluster of data that is not counted any more can be used once its storage
/// is gone.
pub open spec fn dropped(b: Books, after: Books, before: Layout, now: Layout, d: Dropping) -> bool {
    let m = b.image.m;
    let plan = m.drop_plan(d.address);
    &&& before.mapping == m
    &&& before.pools == b.pools
    &&& now.mapping == after.image.m
    &&& now.pools == after.pools
    &&& after.image.v == b.image.v
    &&& d.changed(before, now)
    &&& after.size == b.size
    &&& match d.stage {
        DropStage::Look => {
            &&& after.held == b.held
            &&& after.count == b.count
            &&& forall|i: int| #[trigger]
                after.owes(i) == b.owes(i) + (if plan is Compressed {
                    uses::entry_use(m.geometry, plan->Compressed_0, i)
                } else {
                    0
                })
        },
        DropStage::Lowered(c, n) => {
            &&& n == b.counted(c as int / b.cs()) - 1
            &&& after.owed == b.owed
            &&& if plan == Dropped::Plain(c) {
                &&& after.held == (if n == 0 {
                    b.held.insert(c)
                } else {
                    b.held
                })
                &&& forall|i: int| #[trigger]
                    after.counted(i) == (if i == c as int / b.cs() {
                        n as int
                    } else {
                        b.counted(i)
                    })
            } else {
                after.held == b.held && after.count == b.count
            }
        },
        DropStage::Punched(c) => {
            &&& b.held.contains(c)
            &&& b.counted(c as int / b.cs()) == 0
            &&& after.held == b.held.remove(c)
            &&& after.owed == b.owed
            &&& after.count == b.count
        },
        _ => after.held == b.held && after.owed == b.owed && after.count == b.count,
    }
}

/// Giving up what is stored for a cluster of the guest keeps the books in order.
pub proof fn a_drop_keeps_the_books(
    b: Books,
    after: Books,
    before: Layout,
    now: Layout,
    d: Dropping,
)
    requires
        b.sound(),
        now.wf(),
        dropped(b, after, before, now, d),
    ensures
        after.sound(),
{
    let m = b.image.m;
    let v = b.image.v;
    let a = d.address as int;
    let plan = m.drop_plan(d.address);
    m.geometry.bounds();
    qcow::map::flag_bits();
    if m.covers(d.address) {
        contents::entry_facts(m, v, a);
        if m.cached().contains_key(m.i(d.address)) {
            m.cached_wf(m.i(d.address));
        }
    }
    match d.stage {
        DropStage::Look => {
            if plan is Zero || plan is Compressed {
                assert(b.image.entry(a) == m.entry(d.address));
                setting_an_entry_keeps_the_books(b, after, d.address, 0, None);
            } else {
                assert forall|x: int| #[trigger] contents::entry_at(now.mapping, v, x)
                    == contents::entry_at(m, v, x) by {
                }
                assert(contents::tidy(now.mapping, v));
                staying_in_place_keeps_the_books(b, Books { owed: b.owed, ..after });
                same_owed(Books { owed: b.owed, ..after }, after);
            }
        },
        DropStage::Lowered(c, n) => {
            if plan == Dropped::Plain(c) {
                giving_up_data_keeps_the_books(b, after, d.address, c);
            }
        },
        DropStage::Punched(c) => {
            let one = seq![c];
            assert(one[0] == c);
            assert(b.pools.unref_clusters@.push(c) =~= b.pools.unref_clusters@ + one);
            assert forall|x: u64| #[trigger] one.contains(x) implies x == c by {
            }
            giving_back_keeps_the_books(b, after, one);
        },
        _ => {},
    }
}

/// How counts are written down does not matter.
pub(crate) proof fn same_counts(b: Books, after: Books)
    requires
        b.sound(),
        after == (Books { count: after.count, ..b }),
        forall|i: int| #[trigger] after.counted(i) == b.counted(i),
    ensures
        after.sound(),
{
    assert forall|i: int| #[trigger] after.holds_at(i) by {
        assert(b.holds_at(i));
        assert(after.counted(i) == b.counted(i));
    }
    assert forall|x: u64| #[trigger] after.holds_for(x) by {
        assert(b.holds_for(x));
        assert(after.counted(x as int / b.cs()) == b.counted(x as int / b.cs()));
    }
    assert forall|k: int| 0 <= k < after.image.m.l1_table@.len() implies #[trigger] after.holds_for_table(
        k,
    ) by {
        assert(b.holds_for_table(k));
    }
}

/// How the references that were given up are written down does not matter.
proof fn same_owed(b: Books, after: Books)
    requires
        b.sound(),
        after == (Books { owed: after.owed, ..b }),
        forall|i: int| #[trigger] after.owes(i) == b.owes(i),
    ensures
        after.sound(),
{
    assert forall|i: int| #[trigger] after.holds_at(i) by {
        assert(b.holds_at(i));
        assert(after.owes(i) == b.owes(i));
    }
    assert forall|x: u64| #[trigger] after.holds_for(x) by {
        assert(b.holds_for(x));
        assert(after.owes(x as int / b.cs()) == b.owes(x as int / b.cs()));
    }
    assert forall|k: int| 0 <= k < after.image.m.l1_table@.len() implies #[trigger] after.holds_for_table(
        k,
    ) by {
        assert(b.holds_for_table(k));
        let i = b.image.m.l1_table@[k] as int / b.cs();
        assert(after.owes(i) == b.owes(i));
    }
}

/// Whether a payload has its reference to a cluster still to be released, when `done` clusters of it
/// have lost theirs.
pub open spec fn to_release(entry: u64, cluster_bits: u32, done: int, i: int) -> int {
    if geometry::first_host(entry, cluster_bits) + done <= i <= geometry::last_host(
        entry,
        cluster_bits,
    ) {
        1
    } else {
        0
    }
}

/// A payload that is released: the count of its next cluster was read, and is lowered.
pub open spec fn released(
    b: Books,
    after: Books,
    r: Releasing,
    next: Releasing,
    entry: u64,
    n: u16,
) -> bool {
    let h = r.hosts@[r.done as int];
    let i0 = h as int / b.cs();
    &&& r.wf() && r.asked
    &&& r.hosts@ == geometry::host_clusters(entry, b.image.m.geometry.cluster_bits)
    &&& next.hosts == r.hosts
    &&& next.done == r.done + 1
    &&& n == b.counted(i0)
    &&& after.image == b.image
    &&& after.pools.avail_clusters@ == b.pools.avail_clusters@
    &&& after.pools.unref_clusters@ == (if n == 1 {
        b.pools.unref_clusters@.push(h)
    } else {
        b.pools.unref_clusters@
    })
    &&& after.held == b.held
    &&& after.size == b.size
    &&& forall|i: int| #[trigger]
        after.counted(i) == (if i == i0 {
            b.counted(i) - 1
        } else {
            b.counted(i)
        })
    &&& forall|i: int| #[trigger]
        after.owes(i) == (if i == i0 {
            b.owes(i) - 1
        } else {
            b.owes(i)
        })
}

/// Releasing a payload keeps the books in order: every cluster of it has a count to lower, and one
/// that is not counted any more is used by no other payload.
pub proof fn a_release_keeps_the_books(
    b: Books,
    after: Books,
    r: Releasing,
    next: Releasing,
    entry: u64,
    n: u16,
)
    requires
        b.sound(),
        released(b, after, r, next, entry, n),
        forall|i: int| #[trigger]
            b.owes(i) >= to_release(entry, b.image.m.geometry.cluster_bits, r.done as int, i),
    ensures
        n >= 1,
        after.sound(),
        forall|i: int| #[trigger]
            after.owes(i) >= to_release(
                entry,
                b.image.m.geometry.cluster_bits,
                next.done as int,
                i,
            ),
{
    let bits = b.image.m.geometry.cluster_bits;
    let cs = b.cs();
    let first = geometry::first_host(entry, bits);
    let k = r.done as int;
    let h = r.hosts@[k];
    let i0 = h as int / cs;
    b.image.m.geometry.bounds();
    geometry::host_clusters_cover_the_payload(entry, bits, 0);
    geometry::payload_bounds(entry, bits);
    assert(geometry::host_clusters(entry, bits)[k] == h);
    assert(h as int == (first + k) * cs);
    lemma_div_pos_is_pos(geometry::payload_offset(entry, bits), cs);
    clusters_have_indices(first + k, cs);
    lemma_mod_multiples_basic(first + k, cs);
    lemma_div_is_ordered(
        geometry::payload_offset(entry, bits),
        geometry::payload_offset(entry, bits) + geometry::payload_len(entry, bits) - 1,
        cs,
    );
    assert(b.owes(i0) >= to_release(entry, bits, k, i0));
    lowering_a_count_keeps_the_books(b, after, h);
    assert forall|i: int| #[trigger] after.owes(i) >= to_release(entry, bits, k + 1, i) by {
        assert(b.owes(i) >= to_release(entry, bits, k, i));
        assert(b.holds_at(i));
    }
}

/// Where the payload of an entry was given up, its release begins with all of its references.
pub proof fn a_release_begins_with_all(
    b: Books,
    after: Books,
    address: u64,
    entry: u64,
    table: Option<u64>,
)
    requires
        b.sound(),
        set_entry(b, after, address, entry, table),
        b.image.entry(address as int) & qcow::COMPRESSED_FLAG != 0,
    ensures
        forall|i: int| #[trigger]
            after.owes(i) >= to_release(
                b.image.entry(address as int),
                b.image.m.geometry.cluster_bits,
                0,
                i,
            ),
{
    contents::entry_facts(b.image.m, b.image.v, address as int);
    assert forall|i: int| #[trigger] after.owes(i) >= to_release(
        b.image.entry(address as int),
        b.image.m.geometry.cluster_bits,
        0,
        i,
    ) by {
        assert(b.holds_at(i));
        assert(after.owes(i) == after.owes(i));
    }
}

/// An image was opened: the count of every cluster of its file was looked up, and those that are not
/// counted can be used. No cluster behind the end of the file is counted, and every cluster is
/// counted as often as the tables refer to it, or more often.
pub open spec fn opened(b: Books, s: Survey) -> bool {
    let n = s.counts@.len() as int;
    &&& b.image.sound()
    &&& rebuilding::is_aligned(b.image.m, b.image.v)
    &&& s.wf()
    &&& s.cluster_size == b.cs()
    &&& n == s.clusters
    &&& b.size == s.file_size
    &&& n * b.cs() <= u64::MAX
    &&& b.pools.avail_clusters@ == open::unreferenced(s.counts@, n, b.cs())
    &&& b.pools.unref_clusters@ == Seq::<u64>::empty()
    &&& forall|i: int| #[trigger]
        b.counted(i) == (if 0 <= i < n {
            s.counts@[i] as int
        } else {
            0
        })
    &&& forall|i: int| #[trigger] b.counted(i) >= b.uses(i)
    &&& forall|i: int| #[trigger] b.owes(i) == 0
    &&& forall|x: u64| #[trigger]
        b.held.contains(x) ==> x as int % b.cs() == 0 && x < b.size && b.counted(x as int / b.cs())
            > 0 && b.uses(x as int / b.cs()) == 0
}

/// An image that was opened has its books in order.
pub proof fn opening_sets_up_the_books(b: Books, s: Survey)
    requires
        opened(b, s),
    ensures
        b.sound(),
{
    let n = s.counts@.len() as int;
    let cs = b.cs();
    let avail = b.pools.avail_clusters@;
    b.image.m.geometry.bounds();
    open::unreferenced_are_clusters(s.counts@, n, cs);
    open::unreferenced_below(s.counts@, n, cs);
    assert forall|i: int| #[trigger] b.holds_at(i) by {
        assert(b.counted(i) >= b.uses(i));
        assert(b.owes(i) == 0);
        geometry::ceil_div_is_least(s.file_size as int, cs, i);
        if 0 <= i < n {
            open::unreferenced_is_exact(s.counts@, n, cs, i);
        }
        if i < 0 {
            assert(i * cs < 0) by (nonlinear_arith)
                requires
                    i < 0,
                    cs > 0,
            ;
        }
    }
    assert forall|x: u64| #[trigger] b.holds_for(x) by {
        let i = x as int / cs;
        assert(b.owes(i) == 0);
        assert(b.counted(i) >= b.uses(i));
        if avail.contains(x) {
            let j = choose|j: int| 0 <= j < avail.len() && avail[j] == x;
            assert(avail[j] as int % cs == 0);
            index_of(x as int, cs);
            geometry::ceil_div_is_least(s.file_size as int, cs, i);
        }
    }
    assert forall|k: int| 0 <= k < b.image.m.l1_table@.len() implies #[trigger] b.holds_for_table(
        k,
    ) by {
        assert(b.owes(b.image.m.l1_table@[k] as int / cs) == 0);
    }
}

} // verus!
