//! The file once the counts of an image were rebuilt: what is read from it are the references.

use vstd::arithmetic::div_mod::*;
use vstd::arithmetic::power2::*;
use vstd::prelude::*;

use crate::bytes;
use crate::qcow::books;
use crate::qcow::contents;
use crate::qcow::header::QcowHeader;
use crate::qcow::open;
use crate::qcow::rebuild;
use crate::qcow::rebuild::Write;
use crate::qcow::rebuilding;
use crate::qcow::rebuilding::Rebuilding;
use crate::qcow::refblocks;
use crate::qcow::tables;

verus! {

/// A file after bytes were written to it.
pub open spec fn put(file: spec_fn(int) -> u8, at: int, data: Seq<u8>) -> spec_fn(int) -> u8 {
    |x: int|
        if at <= x < at + data.len() {
            data[x - at]
        } else {
            file(x)
        }
}

/// The bytes of a block of counts.
pub open spec fn block_bytes(b: Rebuilding, j: int) -> Seq<u8> {
    tables::numbers(
        tables::count_numbers(b.block_counts(j)),
        2,
        b.block_counts(j).len() as int,
    )
}

/// The bytes of the refcount table.
pub open spec fn table_bytes(b: Rebuilding) -> Seq<u8> {
    tables::numbers(tables::entry_numbers(b.table@), 8, b.table@.len() as int)
}

/// A file after one of the writes of a rebuild. With the header, the file is given its length.
pub open spec fn performed(b: Rebuilding, file: spec_fn(int) -> u8, w: Write) -> spec_fn(int) -> u8 {
    match w {
        Write::Header(lazy) => put(
            put(file, 0, rebuilding::with_lazy(b.header, lazy).all_bytes()),
            b.header.tail(),
            seq![0u8],
        ),
        Write::Block(j) => put(file, b.table@[j as int] as int, block_bytes(b, j as int)),
        Write::Table => put(file, b.header.refcount_table_offset as int, table_bytes(b)),
    }
}

/// A file after writes of a rebuild, in order.
pub open spec fn after_writes(b: Rebuilding, file: spec_fn(int) -> u8, writes: Seq<Write>) -> spec_fn(
    int,
) -> u8
    decreases writes.len(),
{
    if writes.len() == 0 {
        file
    } else {
        performed(b, after_writes(b, file, writes.drop_last()), writes.last())
    }
}

/// The number that a file holds at an offset, its big end first.
pub open spec fn number_in(file: spec_fn(int) -> u8, at: int, width: nat) -> nat {
    bytes::be_value(Seq::new(width, |k: int| file(at + k)))
}

/// The count of a cluster as it is read from a file: from the block that the refcount table points
/// at, if it points at one.
pub open spec fn count_read(file: spec_fn(int) -> u8, h: QcowHeader, i: int) -> nat {
    let per = open::geometry_of(h).cs() / 2;
    let block = number_in(file, h.refcount_table_offset + 8 * (i / per), 8);
    if block == 0 {
        0
    } else {
        number_in(file, block as int + 2 * (i % per), 2)
    }
}

/// The header is in the first cluster of the file, and the refcount table begins with a later one.
pub open spec fn is_laid_out(h: QcowHeader) -> bool {
    let cs = open::geometry_of(h).cs();
    &&& rebuilding::with_lazy(h, true).all_bytes().len() <= cs
    &&& rebuilding::with_lazy(h, false).all_bytes().len() <= cs
    &&& h.refcount_table_offset as int % cs == 0
    &&& h.refcount_table_offset > 0
}

/// A number that is held byte by byte is read back.
proof fn numbers_are_read(
    file: spec_fn(int) -> u8,
    at: int,
    values: Seq<nat>,
    width: nat,
    i: int,
)
    requires
        0 <= i < values.len(),
        forall|k: int| 0 <= k < values.len() ==> #[trigger] values[k] < bytes::byte_pow(width),
        forall|y: int|
            0 <= y < values.len() * width ==> #[trigger] file(at + y) == tables::numbers(
                values,
                width,
                values.len() as int,
            )[y],
    ensures
        number_in(file, at + i * width, width) == values[i],
{
    let n = values.len() as int;
    let all = tables::numbers(values, width, n);
    tables::numbers_read_back(values, width, n, i);
    assert(0 <= i * width && i * width + width <= n * width) by (nonlinear_arith)
        requires
            0 <= i < n,
    ;
    let part = Seq::new(width, |k: int| file(at + i * width + k));
    assert forall|k: int| 0 <= k < width implies part[k] == all.subrange(
        i * width,
        i * width + width,
    )[k] by {
        assert(file(at + (i * width + k)) == all[i * width + k]);
    }
    assert(part =~= all.subrange(i * width, i * width + width));
}

/// A block of counts fills a cluster.
proof fn a_block_fills_a_cluster(b: Rebuilding, j: int)
    requires
        b.planned(),
    ensures
        block_bytes(b, j).len() == open::geometry_of(b.header).cs(),
        b.block_counts(j).len() * 2 == open::geometry_of(b.header).cs(),
{
    let g = open::geometry_of(b.header);
    let values = tables::count_numbers(b.block_counts(j));
    g.bounds();
    bytes::byte_pow_values();
    assert forall|k: int| 0 <= k < values.len() implies #[trigger] values[k] < bytes::byte_pow(
        2,
    ) by {
    }
    tables::numbers_read_back(values, 2, values.len() as int, 0);
}

/// What is known of the places that a rebuild writes to.
proof fn places_are_apart(b: Rebuilding, j: int)
    requires
        b.wf(),
        b.stage is Write || b.stage is Over,
        is_laid_out(b.header),
        refblocks::has_block(b.table@, j),
    ensures
        ({
            let h = b.header;
            let cs = open::geometry_of(h).cs();
            let at = b.table@[j] as int;
            &&& cs <= at
            &&& contents::apart(
                at,
                cs,
                h.refcount_table_offset as int,
                h.refcount_table_clusters * cs,
            )
            &&& forall|k: int|
                #![trigger b.table@[k]]
                refblocks::has_block(b.table@, k) && k != j ==> contents::apart(
                    at,
                    cs,
                    b.table@[k] as int,
                    cs,
                )
        }),
{
    let h = b.header;
    let g = open::geometry_of(h);
    let cs = g.cs();
    let at = b.table@[j] as int;
    let t = at / cs;
    let start = h.refcount_table_offset as int;
    let n = h.refcount_table_clusters as int;
    g.bounds();
    rebuilding::a_rebuild_overwrites_nothing(b, j);
    lemma_fundamental_div_mod(at, cs);
    lemma_fundamental_div_mod(start, cs);
    let s = start / cs;
    assert(cs * t == t * cs && cs * s == s * cs) by (nonlinear_arith);
    assert(t >= 1 ==> t * cs >= cs) by (nonlinear_arith)
        requires
            cs > 0,
    ;
    if !contents::apart(at, cs, start, n * cs) {
        let k = t - s;
        assert(0 <= k < n) by (nonlinear_arith)
            requires
                at == t * cs,
                start == s * cs,
                k == t - s,
                cs > 0,
                !(at + cs <= start),
                !(start + n * cs <= at),
        ;
        assert(start + k * cs == at) by (nonlinear_arith)
            requires
                at == t * cs,
                start == s * cs,
                k == t - s,
        ;
        let refs = rebuilding::image_refs(h, b.l1_table@, b.read@);
        let run = rebuild::reftable_run(h);
        assert(run[k] == at as u64);
        assert(refs[refs.len() - run.len() + k] == run[k]);
        rebuild::what_is_referred_to_is_counted(Seq::empty(), cs, refs, at as u64);
    }
    assert forall|k: int|
        #![trigger b.table@[k]]
        refblocks::has_block(b.table@, k) && k != j implies contents::apart(
        at,
        cs,
        b.table@[k] as int,
        cs,
    ) by {
        rebuilding::a_rebuild_overwrites_nothing(b, k);
        books::aligned_clusters_are_apart(at, b.table@[k] as int, cs);
    }
}

/// After the writes of blocks, each of them is in its place.
proof fn blocks_are_written(b: Rebuilding, file: spec_fn(int) -> u8, n: int, j: int, y: int)
    requires
        b.wf(),
        b.stage is Write || b.stage is Over,
        is_laid_out(b.header),
        0 <= j < n <= b.table@.len(),
        b.table@[j] != 0,
        0 <= y < open::geometry_of(b.header).cs(),
    ensures
        after_writes(b, file, rebuild::block_writes(b.table@, n))(b.table@[j] + y) == block_bytes(
            b,
            j,
        )[y],
    decreases n,
{
    let k = n - 1;
    let before = rebuild::block_writes(b.table@, k);
    let now = rebuild::block_writes(b.table@, n);
    if b.table@[k] == 0 {
        blocks_are_written(b, file, k, j, y);
    } else {
        assert(now.drop_last() =~= before);
        rebuilding::table_has_indices(b);
        a_block_fills_a_cluster(b, k);
        if j < k {
            blocks_are_written(b, file, k, j, y);
            places_are_apart(b, j);
            assert(refblocks::has_block(b.table@, k));
        }
    }
}

/// Writes one after the other.
proof fn one_write_more(b: Rebuilding, file: spec_fn(int) -> u8, writes: Seq<Write>, w: Write)
    ensures
        after_writes(b, file, writes.push(w)) == performed(b, after_writes(b, file, writes), w),
{
    assert(writes.push(w).drop_last() =~= writes);
}

/// Writes of one list and then of another.
proof fn two_lists_of_writes(
    b: Rebuilding,
    file: spec_fn(int) -> u8,
    first: Seq<Write>,
    later: Seq<Write>,
)
    ensures
        after_writes(b, file, first + later) == after_writes(
            b,
            after_writes(b, file, first),
            later,
        ),
    decreases later.len(),
{
    if later.len() == 0 {
        assert(first + later =~= first);
    } else {
        two_lists_of_writes(b, file, first, later.drop_last());
        assert((first + later).drop_last() =~= first + later.drop_last());
        assert((first + later).last() == later.last());
    }
}

/// The last byte of the refcount table, which the header's length is written over, is zero.
proof fn the_tail_is_zero(b: Rebuilding)
    requires
        b.wf(),
        b.stage is Write || b.stage is Over,
        b.table@.len() > 0,
    ensures
        table_bytes(b).len() == b.table@.len() * 8,
        table_bytes(b).last() == 0,
{
    let g = open::geometry_of(b.header);
    let cs = g.cs();
    let n = b.table@.len() as int;
    let values = tables::entry_numbers(b.table@);
    g.bounds();
    bytes::byte_pow_values();
    assert forall|k: int| 0 <= k < values.len() implies #[trigger] values[k] < bytes::byte_pow(
        8,
    ) by {
    }
    tables::numbers_read_back(values, 8, n, n - 1);
    let at = b.table@[n - 1] as int;
    bytes::be_bytes_len(at as nat, 8);
    assert(table_bytes(b).last() == bytes::be_bytes(at as nat, 8).last());
    assert(bytes::be_bytes(at as nat, 8).last() == (at as nat % 256) as u8);
    if at != 0 {
        rebuilding::a_rebuild_overwrites_nothing(b, n - 1);
        let q = pow2((g.cluster_bits - 8) as nat) as int;
        lemma2_to64();
        lemma_pow2_adds((g.cluster_bits - 8) as nat, 8);
        lemma_fundamental_div_mod(at, cs);
        let p = at / cs;
        assert(at == (q * p) * 256) by (nonlinear_arith)
            requires
                at == cs * p,
                cs == q * 256,
        ;
        lemma_mod_multiples_basic(q * p, 256);
    }
}

/// The file at the end of a rebuild, from what it is after the blocks were written.
proof fn the_last_writes(b: Rebuilding, file: spec_fn(int) -> u8) -> (f: spec_fn(int) -> u8)
    ensures
        f == after_writes(
            b,
            after_writes(b, file, seq![Write::Header(true)]),
            rebuild::block_writes(b.table@, b.table@.len() as int),
        ),
        after_writes(b, file, rebuild::writes_in_order(b.table@)) == performed(
            b,
            performed(b, f, Write::Table),
            Write::Header(false),
        ),
{
    let blocks = rebuild::block_writes(b.table@, b.table@.len() as int);
    let first = seq![Write::Header(true)];
    two_lists_of_writes(b, file, first, blocks);
    let most = first + blocks;
    one_write_more(b, file, most, Write::Table);
    one_write_more(b, file, most.push(Write::Table), Write::Header(false));
    assert(rebuild::writes_in_order(b.table@) =~= most.push(Write::Table).push(
        Write::Header(false),
    ));
    after_writes(b, after_writes(b, file, first), blocks)
}

/// Where the refcount table is, and the byte that gives the file its length.
proof fn the_table_is_behind_the_header(b: Rebuilding)
    requires
        b.wf(),
        b.stage is Write || b.stage is Over,
        is_laid_out(b.header),
    ensures
        ({
            let h = b.header;
            let cs = open::geometry_of(h).cs();
            &&& b.table@.len() > 0
            &&& h.refcount_table_clusters * cs >= cs
            &&& h.refcount_table_offset >= cs
            &&& h.tail() == h.refcount_table_offset + h.refcount_table_clusters * cs - 1
        }),
{
    let h = b.header;
    let g = open::geometry_of(h);
    let cs = g.cs();
    let start = h.refcount_table_offset as int;
    g.bounds();
    rebuilding::the_header_has_a_block(b);
    rebuilding::a_rebuild_overwrites_nothing(b, 0);
    lemma_fundamental_div_mod(start, cs);
    lemma_div_pos_is_pos(start, cs);
    let q = start / cs;
    assert(q >= 1 ==> cs * q >= cs) by (nonlinear_arith)
        requires
            cs > 0,
    ;
    assert(q == 0 ==> cs * q == 0) by (nonlinear_arith);
    let n = h.refcount_table_clusters as int;
    assert(n == 0 ==> n * cs == 0) by (nonlinear_arith);
    assert(n >= 1 ==> n * cs >= cs) by (nonlinear_arith)
        requires
            cs > 0,
    ;
}

/// What is read from the file when a rebuild has ended are the references: the count of every cluster
/// says how often the header, the tables, their entries, the refcount table and the blocks of counts
/// refer to the cluster. One that the refcount table has no entry for is not referred to. Whatever
/// was in the file before does not matter.
pub proof fn the_references_are_read_back(b: Rebuilding, file: spec_fn(int) -> u8, i: int)
    requires
        b.wf(),
        b.stage is Write || b.stage is Over,
        is_laid_out(b.header),
        0 <= i < rebuild::max_clusters(b.header),
    ensures
        ({
            let refs = rebuild::references(
                rebuilding::image_refs(b.header, b.l1_table@, b.read@) + refblocks::block_list(
                    b.table@,
                ),
                open::geometry_of(b.header).cs(),
                i,
            );
            if i / (open::geometry_of(b.header).cs() / 2) < b.table@.len() {
                count_read(
                    after_writes(b, file, rebuild::writes_in_order(b.table@)),
                    b.header,
                    i,
                ) == refs
            } else {
                refs == 0
            }
        }),
{
    let h = b.header;
    let g = open::geometry_of(h);
    let cs = g.cs();
    let per = cs / 2;
    let table = b.table@;
    let n = table.len() as int;
    let start = h.refcount_table_offset as int;
    let q = i / per;
    let r = i % per;
    g.bounds();
    lemma_div_pos_is_pos(i, per);
    lemma_mod_bound(i, per);
    rebuilding::every_count_is_the_number_of_references(b, i);
    if q < n {
        rebuilding::a_rebuild_overwrites_nothing(b, 0);
        the_tail_is_zero(b);
        the_table_is_behind_the_header(b);
        // The file after the blocks, after the table, and at the end.
        let f2 = the_last_writes(b, file);
        let f3 = performed(b, f2, Write::Table);
        let f4 = performed(b, f3, Write::Header(false));
        let tail = h.tail();
        let bytes_of_table = table_bytes(b);
        assert forall|y: int| 0 <= y < n * 8 implies #[trigger] f4(start + y)
            == bytes_of_table[y] by {
            assert(f3(start + y) == bytes_of_table[y]);
            if start + y == tail {
                assert(y == n * 8 - 1);
            }
        }
        let values = tables::entry_numbers(table);
        bytes::byte_pow_values();
        assert forall|k: int| 0 <= k < values.len() implies #[trigger] values[k]
            < bytes::byte_pow(8) by {
        }
        numbers_are_read(f4, start, values, 8, q);
        assert(number_in(f4, start + 8 * q, 8) == table[q]);
        if table[q] != 0 {
            let at = table[q] as int;
            let counts = tables::count_numbers(b.block_counts(q));
            let f1 = after_writes(b, file, seq![Write::Header(true)]);
            assert(refblocks::has_block(table, q));
            places_are_apart(b, q);
            a_block_fills_a_cluster(b, q);
            assert forall|y: int| 0 <= y < counts.len() * 2 implies #[trigger] f4(at + y)
                == block_bytes(b, q)[y] by {
                blocks_are_written(b, f1, n, q, y);
                assert(f3(at + y) == f2(at + y));
                assert(f4(at + y) == f3(at + y));
            }
            assert forall|k: int| 0 <= k < counts.len() implies #[trigger] counts[k]
                < bytes::byte_pow(2) by {
            }
            numbers_are_read(f4, at, counts, 2, r);
        }
    }
}

/// When a rebuild has ended, the header in the file does not say that the counts lag behind.
pub proof fn the_mark_is_gone_from_the_file(b: Rebuilding, file: spec_fn(int) -> u8, y: int)
    requires
        b.wf(),
        b.stage is Write || b.stage is Over,
        is_laid_out(b.header),
        0 <= y < rebuilding::with_lazy(b.header, false).all_bytes().len(),
    ensures
        after_writes(b, file, rebuild::writes_in_order(b.table@))(y) == rebuilding::with_lazy(
            b.header,
            false,
        ).all_bytes()[y],
        !rebuilding::is_lazy(rebuilding::with_lazy(b.header, false)),
{
    let f = b.header.compatible_features;
    assert(f & !1u64 & 1u64 == 0) by (bit_vector);
    the_table_is_behind_the_header(b);
    the_last_writes(b, file);
}

/// The writes of blocks leave every byte alone that lies in a cluster which the image refers to.
proof fn blocks_leave_the_rest(b: Rebuilding, file: spec_fn(int) -> u8, n: int, x: int)
    requires
        b.wf(),
        b.stage is Write || b.stage is Over,
        is_laid_out(b.header),
        0 <= n <= b.table@.len(),
        rebuild::references(
            rebuilding::image_refs(b.header, b.l1_table@, b.read@),
            open::geometry_of(b.header).cs(),
            x / open::geometry_of(b.header).cs(),
        ) > 0,
    ensures
        after_writes(b, file, rebuild::block_writes(b.table@, n))(x) == file(x),
    decreases n,
{
    if n > 0 {
        let k = n - 1;
        let cs = open::geometry_of(b.header).cs();
        let now = rebuild::block_writes(b.table@, n);
        blocks_leave_the_rest(b, file, k, x);
        if b.table@[k] != 0 {
            let at = b.table@[k] as int;
            open::geometry_of(b.header).bounds();
            rebuilding::table_has_indices(b);
            assert(now.drop_last() =~= rebuild::block_writes(b.table@, k));
            a_block_fills_a_cluster(b, k);
            assert(refblocks::has_block(b.table@, k));
            rebuilding::a_rebuild_overwrites_nothing(b, k);
            if at <= x < at + cs {
                rebuilding::in_its_cluster(at, cs, x);
            }
        }
    }
}

/// A rebuild changes nothing of what the image refers to but the header and the refcount table: L1
/// and L2 tables and the data of the guest are as they were.
pub proof fn a_rebuild_leaves_the_rest(b: Rebuilding, file: spec_fn(int) -> u8, x: int)
    requires
        b.wf(),
        b.stage is Write || b.stage is Over,
        is_laid_out(b.header),
        x >= open::geometry_of(b.header).cs(),
        !(b.header.refcount_table_offset <= x < b.header.refcount_table_offset
            + b.header.refcount_table_clusters * open::geometry_of(b.header).cs()),
        rebuild::references(
            rebuilding::image_refs(b.header, b.l1_table@, b.read@),
            open::geometry_of(b.header).cs(),
            x / open::geometry_of(b.header).cs(),
        ) > 0,
    ensures
        after_writes(b, file, rebuild::writes_in_order(b.table@))(x) == file(x),
{
    let first = seq![Write::Header(true)];
    let f1 = after_writes(b, file, first);
    the_table_is_behind_the_header(b);
    the_tail_is_zero(b);
    rebuilding::a_rebuild_overwrites_nothing(b, 0);
    reveal_with_fuel(after_writes, 2);
    assert(first.drop_last() =~= Seq::<Write>::empty());
    assert(f1(x) == file(x));
    blocks_leave_the_rest(b, f1, b.table@.len() as int, x);
    the_last_writes(b, file);
}

} // verus!
