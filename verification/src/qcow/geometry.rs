//! Sizes, indices and ranges of an image.

use vstd::arithmetic::div_mod::*;
use vstd::arithmetic::mul::*;
use vstd::arithmetic::power2::*;
use vstd::bits::*;
use vstd::prelude::*;

use crate::qcow;
use crate::qcow::Error;

verus! {

/// The quotient of `a` and `b`, rounded up.
pub open spec fn ceil_div(a: int, b: int) -> int {
    if a % b == 0 {
        a / b
    } else {
        a / b + 1
    }
}

/// The quotient, rounded up.
pub fn div_ceil(a: u64, b: u64) -> (r: u64)
    requires
        b > 0,
    ensures
        r == ceil_div(a as int, b as int),
        r <= a,
{
    proof {
        lemma_fundamental_div_mod(a as int, b as int);
        lemma_div_pos_is_pos(a as int, b as int);
        assert(b * (a as int / b as int) >= a as int / b as int) by (nonlinear_arith)
            requires
                b >= 1,
                a as int / b as int >= 0,
        ;
        assert(a % b == 0 || a / b + 1 <= a) by {
            lemma_div_nonincreasing(a as int, b as int);
        }
    }
    let q: u64 = a / b;
    if a % b == 0 {
        q
    } else {
        q + 1
    }
}

/// `ceil_div` is the least number of pieces of size `b` that hold `a`.
pub proof fn ceil_div_is_least(a: int, b: int, q: int)
    requires
        0 <= a,
        0 < b,
    ensures
        q >= ceil_div(a, b) <==> q * b >= a,
{
    lemma_fundamental_div_mod(a, b);
    let c = ceil_div(a, b);
    if q >= c {
        assert(q * b >= c * b) by (nonlinear_arith)
            requires
                q >= c,
                b > 0,
        ;
        assert(c * b >= a) by (nonlinear_arith)
            requires
                a == b * (a / b) + a % b,
                0 <= a % b < b,
                c == (if a % b == 0 {
                    a / b
                } else {
                    a / b + 1
                }),
        ;
    } else {
        assert(q * b < a) by (nonlinear_arith)
            requires
                q < c,
                a == b * (a / b) + a % b,
                0 <= a % b < b,
                b > 0,
                c == (if a % b == 0 {
                    a / b
                } else {
                    a / b + 1
                }),
        ;
    }
}

/// Two to the power `bits`.
pub fn cluster_size(bits: u32) -> (r: u64)
    requires
        bits < 64,
    ensures
        r == pow2(bits as nat),
        r > 0,
{
    proof {
        lemma_u64_pow2_no_overflow(bits as nat);
        lemma_u64_shl_is_mul(1, bits as u64);
        lemma_pow2_pos(bits as nat);
    }
    1u64 << (bits as u64)
}

/// How many clusters the counts of `num_clusters` clusters take, themselves counted.
pub open spec fn refcount_clusters_for(bytes: int, cluster_size: int, num_clusters: int) -> int {
    let for_data = ceil_div(num_clusters * bytes, cluster_size);
    for_data + ceil_div(for_data * bytes, cluster_size)
}

/// Bytes of one count.
pub open spec fn refcount_bytes(refcount_order: u32) -> int {
    pow2(refcount_order as nat) as int / 8
}

/// How many clusters are needed at most to hold the counts of `num_clusters` clusters.
pub fn max_refcount_clusters(refcount_order: u32, cluster_size: u32, num_clusters: u32) -> (r: u64)
    requires
        refcount_order < 64,
        cluster_size > 0,
        num_clusters * refcount_bytes(refcount_order) <= u64::MAX,
        ceil_div(num_clusters * refcount_bytes(refcount_order), cluster_size as int)
            * refcount_bytes(refcount_order) <= u64::MAX,
        refcount_clusters_for(
            refcount_bytes(refcount_order),
            cluster_size as int,
            num_clusters as int,
        ) <= u64::MAX,
    ensures
        r == refcount_clusters_for(
            refcount_bytes(refcount_order),
            cluster_size as int,
            num_clusters as int,
        ),
{
    let bytes: u64 = self::cluster_size(refcount_order) / 8;
    proof {
        assert(num_clusters * bytes >= 0) by (nonlinear_arith)
            requires
                num_clusters >= 0,
                bytes >= 0,
        ;
    }
    let for_data: u64 = div_ceil(num_clusters as u64 * bytes, cluster_size as u64);
    proof {
        assert(for_data * bytes >= 0) by (nonlinear_arith)
            requires
                for_data >= 0,
                bytes >= 0,
        ;
    }
    let for_refcounts: u64 = div_ceil(for_data * bytes, cluster_size as u64);
    for_data + for_refcounts
}

/// Bits of the byte offset in the entry of a compressed cluster.
pub open spec fn offset_bits(cluster_bits: u32) -> nat {
    (70 - cluster_bits) as nat
}

/// Where the payload of the compressed cluster `entry` begins.
pub open spec fn payload_offset(entry: u64, cluster_bits: u32) -> int {
    entry as int % pow2(offset_bits(cluster_bits)) as int
}

/// How many sectors the payload of the compressed cluster `entry` touches.
pub open spec fn payload_sectors(entry: u64, cluster_bits: u32) -> int {
    (entry as int / pow2(offset_bits(cluster_bits)) as int) % pow2((cluster_bits - 8) as nat) as int
        + 1
}

/// How many bytes the payload takes: from its offset to the end of its last sector.
pub open spec fn payload_len(entry: u64, cluster_bits: u32) -> int {
    payload_sectors(entry, cluster_bits) * 512 - payload_offset(entry, cluster_bits) % 512
}

/// The bounds of a payload.
pub proof fn payload_bounds(entry: u64, cluster_bits: u32)
    requires
        8 <= cluster_bits <= 62,
    ensures
        0 <= payload_offset(entry, cluster_bits) < 0x4000_0000_0000_0000,
        1 <= payload_sectors(entry, cluster_bits) <= pow2((cluster_bits - 8) as nat),
        1 <= payload_len(entry, cluster_bits) <= 2 * pow2(cluster_bits as nat),
        pow2(cluster_bits as nat) <= 0x4000_0000_0000_0000,
        pow2((cluster_bits - 8) as nat) <= 0x40_0000_0000_0000,
        pow2(offset_bits(cluster_bits)) <= 0x4000_0000_0000_0000,
{
    let shift = offset_bits(cluster_bits);
    lemma_pow2_pos(shift);
    lemma_pow2_pos((cluster_bits - 8) as nat);
    lemma2_to64();
    lemma2_to64_rest();
    if shift < 62 {
        lemma_pow2_strictly_increases(shift, 62);
    }
    if cluster_bits < 62 {
        lemma_pow2_strictly_increases(cluster_bits as nat, 62);
        lemma_pow2_strictly_increases((cluster_bits - 8) as nat, 54);
    }
    lemma_mod_bound(entry as int, pow2(shift) as int);
    lemma_mod_bound(
        entry as int / pow2(shift) as int,
        pow2((cluster_bits - 8) as nat) as int,
    );
    lemma_pow2_adds((cluster_bits - 8) as nat, 8);
    assert(pow2(cluster_bits as nat) == pow2((cluster_bits - 8) as nat) * 256);
}

/// The entry of a compressed cluster says where its payload begins and how many sectors it takes:
/// an entry that is made of an offset and a number of sectors is read as that offset, and as the
/// length from there to the end of the last sector. The two highest bits are marks, and play no
/// part in it.
pub proof fn descriptors_read_back(offset: int, sectors: int, marks: int, cluster_bits: u32)
    requires
        8 <= cluster_bits <= 62,
        0 <= offset < pow2((70 - cluster_bits) as nat),
        1 <= sectors <= pow2((cluster_bits - 8) as nat),
        0 <= marks <= 3,
    ensures
        ({
            let entry = marks * 0x4000_0000_0000_0000 + (sectors - 1) * pow2(
                (70 - cluster_bits) as nat,
            ) + offset;
            &&& 0 <= entry <= u64::MAX
            &&& payload_offset(entry as u64, cluster_bits) == offset
            &&& payload_len(entry as u64, cluster_bits) == sectors * 512 - offset % 512
            &&& first_host(entry as u64, cluster_bits) == offset / pow2(
                cluster_bits as nat,
            ) as int
            &&& last_host(entry as u64, cluster_bits) == (offset - offset % 512 + sectors * 512 - 1)
                / pow2(cluster_bits as nat) as int
        }),
{
    let o = pow2((70 - cluster_bits) as nat) as int;
    let n = pow2((cluster_bits - 8) as nat) as int;
    lemma_pow2_pos((70 - cluster_bits) as nat);
    lemma_pow2_pos((cluster_bits - 8) as nat);
    lemma_pow2_adds((70 - cluster_bits) as nat, (cluster_bits - 8) as nat);
    lemma2_to64_rest();
    assert(o * n == 0x4000_0000_0000_0000);
    let entry = marks * 0x4000_0000_0000_0000 + (sectors - 1) * o + offset;
    let high = marks * n + (sectors - 1);
    assert(high * o + offset == entry) by (nonlinear_arith)
        requires
            o * n == 0x4000_0000_0000_0000,
            high == marks * n + (sectors - 1),
            entry == marks * 0x4000_0000_0000_0000 + (sectors - 1) * o + offset,
    ;
    assert(0 <= (sectors - 1) * o && (sectors - 1) * o + o <= n * o) by (nonlinear_arith)
        requires
            1 <= sectors <= n,
            o > 0,
    ;
    assert(n * o == o * n) by (nonlinear_arith);
    lemma_fundamental_div_mod_converse(entry, o, high, offset);
    lemma_fundamental_div_mod_converse(high, n, marks, sectors - 1);
}

/// What an entry is read as is all that it says, but for its two highest bits.
pub proof fn descriptors_are_read_whole(entry: u64, cluster_bits: u32)
    requires
        8 <= cluster_bits <= 62,
    ensures
        ({
            let at = payload_offset(entry, cluster_bits);
            let end = at % 512 + payload_len(entry, cluster_bits);
            &&& 0 <= at < pow2((70 - cluster_bits) as nat)
            &&& end % 512 == 0
            &&& entry as int % 0x4000_0000_0000_0000 == (end / 512 - 1) * pow2(
                (70 - cluster_bits) as nat,
            ) + at
        }),
{
    let o = pow2((70 - cluster_bits) as nat) as int;
    let n = pow2((cluster_bits - 8) as nat) as int;
    let e = entry as int;
    let marks = e / 0x4000_0000_0000_0000;
    lemma_pow2_pos((70 - cluster_bits) as nat);
    lemma_pow2_pos((cluster_bits - 8) as nat);
    lemma_pow2_adds((70 - cluster_bits) as nat, (cluster_bits - 8) as nat);
    lemma2_to64_rest();
    let at = e % o;
    let high = e / o;
    let sectors = high % n + 1;
    lemma_fundamental_div_mod(e, o);
    lemma_fundamental_div_mod(high, n);
    lemma_mod_bound(e, o);
    lemma_mod_bound(high, n);
    lemma_mod_multiples_basic(sectors, 512);
    let q = high / n;
    assert(o * high == q * (o * n) + (sectors - 1) * o) by (nonlinear_arith)
        requires
            high == n * q + (sectors - 1),
    ;
    assert(0 <= (sectors - 1) * o && (sectors - 1) * o + o <= o * n) by (nonlinear_arith)
        requires
            1 <= sectors <= n,
            o > 0,
    ;
    lemma_fundamental_div_mod_converse(e, o * n, q, (sectors - 1) * o + at);
}

/// Where the payload of a compressed cluster lies in the file, and how long it is.
pub fn decode_compressed_descriptor(l2_entry: u64, cluster_bits: u32) -> (r: (u64, u64))
    requires
        8 <= cluster_bits <= 62,
    ensures
        r.0 == payload_offset(l2_entry, cluster_bits),
        r.1 == payload_len(l2_entry, cluster_bits),
        (r.0 as int % 512 + r.1) % 512 == 0,
        l2_entry as int % 0x4000_0000_0000_0000 == ((r.0 as int % 512 + r.1) / 512 - 1) * pow2(
            (70 - cluster_bits) as nat,
        ) + r.0,
{
    proof {
        payload_bounds(l2_entry, cluster_bits);
        descriptors_are_read_whole(l2_entry, cluster_bits);
    }
    let offsets: u64 = cluster_size(70 - cluster_bits);
    let sectors: u64 = cluster_size(cluster_bits - 8);
    let coffset: u64 = l2_entry % offsets;
    let nb_csectors: u64 = (l2_entry / offsets) % sectors + 1;
    let csize: u64 = nb_csectors * qcow::QCOW_COMPRESSED_SECTOR_SIZE - coffset
        % qcow::QCOW_COMPRESSED_SECTOR_SIZE;
    (coffset, csize)
}

/// Index of the first cluster that a payload touches.
pub open spec fn first_host(entry: u64, cluster_bits: u32) -> int {
    payload_offset(entry, cluster_bits) / pow2(cluster_bits as nat) as int
}

/// Index of the last cluster that a payload touches.
pub open spec fn last_host(entry: u64, cluster_bits: u32) -> int {
    (payload_offset(entry, cluster_bits) + payload_len(entry, cluster_bits) - 1) / pow2(
        cluster_bits as nat,
    ) as int
}

/// The clusters that a payload touches, by address.
pub open spec fn host_clusters(entry: u64, cluster_bits: u32) -> Seq<u64> {
    let cs = pow2(cluster_bits as nat) as int;
    let first = first_host(entry, cluster_bits);
    Seq::new(
        (last_host(entry, cluster_bits) - first + 1) as nat,
        |i: int| ((first + i) * cs) as u64,
    )
}

/// The clusters of the file that the payload of a compressed cluster touches.
pub fn compressed_host_clusters(l2_entry: u64, cluster_bits: u32) -> (r: Vec<u64>)
    requires
        8 <= cluster_bits <= 62,
    ensures
        r@ == host_clusters(l2_entry, cluster_bits),
{
    let cs: u64 = cluster_size(cluster_bits);
    let (coffset, csize) = decode_compressed_descriptor(l2_entry, cluster_bits);
    proof {
        payload_bounds(l2_entry, cluster_bits);
        lemma_div_is_ordered(coffset as int, coffset + csize - 1, cs as int);
        lemma_fundamental_div_mod(coffset + csize - 1, cs as int);
    }
    let first: u64 = coffset / cs;
    let last: u64 = (coffset + (csize - 1)) / cs;
    proof {
        lemma_mul_is_commutative(last as int, cs as int);
    }
    let mut clusters: Vec<u64> = Vec::new();
    let mut index: u64 = first;
    while index <= last
        invariant
            first <= index <= last + 1,
            cs == pow2(cluster_bits as nat),
            cs > 0,
            first == first_host(l2_entry, cluster_bits),
            last == last_host(l2_entry, cluster_bits),
            last * cs <= u64::MAX,
            last < u64::MAX,
            clusters@ =~= host_clusters(l2_entry, cluster_bits).subrange(0, index - first),
        decreases last + 1 - index,
    {
        proof {
            assert(0 <= index * cs <= last * cs) by (nonlinear_arith)
                requires
                    0 <= index <= last,
                    cs > 0,
            ;
        }
        clusters.push(index * cs);
        proof {
            assert(host_clusters(l2_entry, cluster_bits)[index - first] == (index * cs) as u64);
        }
        index = index + 1;
    }
    clusters
}

/// A byte of the file belongs to the payload of a compressed cluster only if it lies in one of
/// the clusters that are listed for it, and every cluster that is listed holds such a byte.
pub proof fn host_clusters_cover_the_payload(entry: u64, cluster_bits: u32, x: int)
    requires
        8 <= cluster_bits <= 62,
    ensures
        payload_offset(entry, cluster_bits) <= x < payload_offset(entry, cluster_bits)
            + payload_len(entry, cluster_bits) ==> host_clusters(entry, cluster_bits).contains(
            (x / pow2(cluster_bits as nat) as int * pow2(cluster_bits as nat)) as u64,
        ),
        forall|i: int|
            0 <= i < host_clusters(entry, cluster_bits).len() ==> {
                let a = #[trigger] host_clusters(entry, cluster_bits)[i];
                &&& a == (first_host(entry, cluster_bits) + i) * pow2(cluster_bits as nat)
                &&& a < payload_offset(entry, cluster_bits) + payload_len(entry, cluster_bits)
                &&& payload_offset(entry, cluster_bits) < a + pow2(cluster_bits as nat)
            },
{
    payload_bounds(entry, cluster_bits);
    let cs = pow2(cluster_bits as nat) as int;
    lemma_pow2_pos(cluster_bits as nat);
    let lo = payload_offset(entry, cluster_bits);
    let hi = lo + payload_len(entry, cluster_bits);
    let first = first_host(entry, cluster_bits);
    let last = last_host(entry, cluster_bits);
    lemma_fundamental_div_mod(lo, cs);
    lemma_fundamental_div_mod(hi - 1, cs);
    lemma_div_is_ordered(lo, hi - 1, cs);
    let hosts = host_clusters(entry, cluster_bits);
    if lo <= x < hi {
        lemma_div_is_ordered(lo, x, cs);
        lemma_div_is_ordered(x, hi - 1, cs);
        assert(hosts[x / cs - first] == (x / cs * cs) as u64);
    }
    assert forall|i: int| 0 <= i < hosts.len() implies {
        let a = #[trigger] hosts[i];
        &&& a == (first + i) * cs
        &&& a < hi
        &&& lo < a + cs
    } by {
        lemma_div_pos_is_pos(lo, cs);
        assert(0 <= (first + i) * cs <= last * cs) by (nonlinear_arith)
            requires
                0 <= first + i <= last,
                cs > 0,
        ;
        assert(last * cs <= hi - 1) by (nonlinear_arith)
            requires
                hi - 1 == cs * last + (hi - 1) % cs,
                0 <= (hi - 1) % cs,
        ;
        assert(lo < first * cs + cs) by (nonlinear_arith)
            requires
                lo == cs * first + lo % cs,
                lo % cs < cs,
        ;
        assert(first * cs <= (first + i) * cs) by (nonlinear_arith)
            requires
                i >= 0,
                cs > 0,
        ;
    }
}

/// Fails if the given offset does not align to a cluster boundary.
pub fn offset_is_cluster_boundary(offset: u64, cluster_bits: u32) -> (r: Result<(), Error>)
    requires
        cluster_bits < 64,
    ensures
        r == (if offset as int % pow2(cluster_bits as nat) as int != 0 {
            Err::<(), Error>(Error::InvalidOffset(offset))
        } else {
            Ok(())
        }),
{
    if offset % cluster_size(cluster_bits) != 0 {
        return Err(Error::InvalidOffset(offset));
    }
    Ok(())
}

/// The shape of an image: how large its clusters are, and how much the guest sees.
#[derive(Clone, Copy, Debug, PartialEq, Eq, Structural)]
pub struct Geometry {
    pub cluster_bits: u32,
    pub virtual_size: u64,
}

impl Geometry {
    /// The cluster size is one that images have.
    pub open spec fn wf(&self) -> bool {
        qcow::MIN_CLUSTER_BITS <= self.cluster_bits <= qcow::MAX_CLUSTER_BITS
    }

    /// Size of a cluster.
    pub open spec fn cs(&self) -> int {
        pow2(self.cluster_bits as nat) as int
    }

    /// Entries of an L2 table, which fills one cluster.
    pub open spec fn entries(&self) -> int {
        self.cs() / 8
    }

    /// The L1 entry that `address` goes through.
    pub open spec fn l1_of(&self, address: int) -> int {
        address / self.cs() / self.entries()
    }

    /// The L2 entry that `address` goes through.
    pub open spec fn l2_of(&self, address: int) -> int {
        address / self.cs() % self.entries()
    }

    /// The bounds that the cluster size keeps.
    pub proof fn bounds(&self)
        requires
            self.wf(),
        ensures
            512 <= self.cs() <= 0x20_0000,
            64 <= self.entries() <= 0x4_0000,
            self.entries() * 8 == self.cs(),
    {
        lemma2_to64();
        lemma_pow2_adds((self.cluster_bits - 3) as nat, 3);
        lemma_pow2_pos((self.cluster_bits - 3) as nat);
        if self.cluster_bits > 9 {
            lemma_pow2_strictly_increases(9, self.cluster_bits as nat);
        }
        if self.cluster_bits < 21 {
            lemma_pow2_strictly_increases(self.cluster_bits as nat, 21);
        }
    }

    /// Size of a cluster.
    pub fn cluster_size(&self) -> (r: u64)
        requires
            self.wf(),
        ensures
            r == self.cs(),
            512 <= r <= 0x20_0000,
    {
        proof {
            self.bounds();
        }
        self::cluster_size(self.cluster_bits)
    }

    /// Entries of an L2 table.
    pub fn l2_entries(&self) -> (r: u64)
        requires
            self.wf(),
        ensures
            r == self.entries(),
            64 <= r <= 0x4_0000,
    {
        proof {
            self.bounds();
        }
        self.cluster_size() / 8
    }

    /// Offset of an address in its cluster.
    pub fn cluster_offset(&self, address: u64) -> (r: u64)
        requires
            self.wf(),
        ensures
            r == address as int % self.cs(),
            r < self.cs(),
            r <= address,
    {
        proof {
            self.bounds();
            lemma_mod_decreases(address as nat, self.cs() as nat);
        }
        address % self.cluster_size()
    }

    /// Limits a range so that it does not exceed the virtual size.
    pub fn limit_range_file(&self, address: u64, count: usize) -> (r: usize)
        ensures
            r == (if address + count > u64::MAX || address > self.virtual_size {
                0int
            } else if count <= self.virtual_size - address {
                count as int
            } else {
                self.virtual_size - address
            }),
            r <= count,
            r > 0 ==> address + r <= self.virtual_size,
    {
        if address.checked_add(count as u64).is_none() || address > self.virtual_size {
            return 0;
        }
        let left: u64 = self.virtual_size - address;
        if count as u64 <= left {
            count
        } else {
            left as usize
        }
    }

    /// Limits a range so that it does not pass the end of a cluster.
    pub fn limit_range_cluster(&self, address: u64, count: usize) -> (r: usize)
        requires
            self.wf(),
        ensures
            r == (if count <= self.cs() - address as int % self.cs() {
                count as int
            } else {
                self.cs() - address as int % self.cs()
            }),
            r <= count,
            count > 0 ==> r > 0,
    {
        let limit: u64 = self.cluster_size() - self.cluster_offset(address);
        if count as u64 <= limit {
            count
        } else {
            limit as usize
        }
    }

    /// The index of `address` in the L1 table.
    pub fn l1_table_index(&self, address: u64) -> (r: u64)
        requires
            self.wf(),
        ensures
            r == self.l1_of(address as int),
    {
        address / self.cluster_size() / self.l2_entries()
    }

    /// The offset of `address` in the L1 table.
    pub fn l1_address_offset(&self, address: u64) -> (r: u64)
        requires
            self.wf(),
        ensures
            r == self.l1_of(address as int) * 8,
    {
        let index: u64 = self.l1_table_index(address);
        proof {
            self.bounds();
            let q = address as int / self.cs();
            lemma_div_is_ordered_by_denominator(address as int, 512, self.cs());
            lemma_div_is_ordered_by_denominator(q, 64, self.entries());
            lemma_div_pos_is_pos(address as int, self.cs());
            assert(q / 64 <= 0x80_0000_0000_0000int);
        }
        index * 8
    }

    /// The index of `address` in its L2 table.
    pub fn l2_table_index(&self, address: u64) -> (r: u64)
        requires
            self.wf(),
        ensures
            r == self.l2_of(address as int),
            r < self.entries(),
    {
        address / self.cluster_size() % self.l2_entries()
    }
}

/// Two addresses go through the same table entries exactly where they lie in the same cluster.
pub proof fn entries_are_clusters(g: Geometry, a: int, b: int)
    requires
        g.wf(),
        0 <= a,
        0 <= b,
    ensures
        (g.l1_of(a) == g.l1_of(b) && g.l2_of(a) == g.l2_of(b)) <==> a / g.cs() == b / g.cs(),
{
    g.bounds();
    lemma_fundamental_div_mod(a / g.cs(), g.entries());
    lemma_fundamental_div_mod(b / g.cs(), g.entries());
}

/// Clusters are of 512 bytes at least and of two mebibytes at most, and each size is twice the one
/// below it.
pub proof fn clusters_double_in_size(g: Geometry, bigger: Geometry)
    requires
        g.wf(),
    ensures
        9 <= g.cluster_bits <= 21,
        g.cluster_bits == 9 ==> g.cs() == 512,
        g.cluster_bits == 21 ==> g.cs() == 2 * 1024 * 1024,
        bigger.cluster_bits == g.cluster_bits + 1 ==> bigger.cs() == 2 * g.cs(),
        !(Geometry { cluster_bits: 8, ..g }).wf(),
        !(Geometry { cluster_bits: 22, ..g }).wf(),
{
    lemma2_to64();
    lemma_pow2_adds(1, g.cluster_bits as nat);
}

/// An L2 table fills a cluster with entries of eight bytes, one for each cluster of the guest in turn;
/// the L1 table has an entry for each L2 table in turn.
pub proof fn addresses_go_through_the_tables(g: Geometry, a: int)
    requires
        g.wf(),
        0 <= a,
    ensures
        g.entries() * 8 == g.cs(),
        0 <= g.l2_of(a) < g.entries(),
        0 <= g.l1_of(a),
        a == (g.l1_of(a) * g.entries() + g.l2_of(a)) * g.cs() + a % g.cs(),
        0 <= a % g.cs() < g.cs(),
{
    g.bounds();
    let c = g.cs();
    let n = g.entries();
    let q = a / c;
    lemma_fundamental_div_mod(a, c);
    lemma_fundamental_div_mod(q, n);
    lemma_mod_bound(a, c);
    lemma_mod_bound(q, n);
    lemma_div_pos_is_pos(a, c);
    lemma_div_pos_is_pos(q, n);
    assert(n * (q / n) == (q / n) * n) by (nonlinear_arith);
    assert(c * q == q * c) by (nonlinear_arith);
}

/// The clusters of counts have room for a count of every cluster, and for one of every cluster of counts
/// that those take; two fewer would not do for the first alone.
pub proof fn counts_have_room(bytes: int, cs: int, n: int)
    requires
        0 < bytes < cs,
        0 <= n,
    ensures
        ({
            let all = refcount_clusters_for(bytes, cs, n);
            exists|own: int|
                {
                    &&& 0 <= #[trigger] (own * bytes)
                    &&& (all - own) * cs >= n * bytes
                    &&& (all - own - 1) * cs < n * bytes
                    &&& own * cs >= (all - own) * bytes
                    &&& (own - 1) * cs < (all - own) * bytes || own == 0
                }
        }),
{
    let all = refcount_clusters_for(bytes, cs, n);
    assert(0 <= n * bytes) by (nonlinear_arith)
        requires
            0 <= n,
            0 < bytes,
    ;
    let data = ceil_div(n * bytes, cs);
    lemma_div_pos_is_pos(n * bytes, cs);
    assert(0 <= data * bytes) by (nonlinear_arith)
        requires
            0 <= data,
            0 < bytes,
    ;
    let own = ceil_div(data * bytes, cs);
    lemma_div_pos_is_pos(data * bytes, cs);
    ceil_div_is_least(n * bytes, cs, data);
    ceil_div_is_least(n * bytes, cs, data - 1);
    ceil_div_is_least(data * bytes, cs, own);
    ceil_div_is_least(data * bytes, cs, own - 1);
    assert(0 <= own * bytes) by (nonlinear_arith)
        requires
            0 <= own,
            0 < bytes,
    ;
    assert(all - own == data);
}

/// A count of an order has two to that power bits: of order four it has two bytes.
pub proof fn counts_have_whole_bytes(order: u32)
    requires
        3 <= order < 64,
    ensures
        refcount_bytes(order) * 8 == pow2(order as nat),
        refcount_bytes(4) == 2,
{
    lemma2_to64();
    lemma_pow2_adds((order - 3) as nat, 3);
}

} // verus!
