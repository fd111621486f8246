//! Tables and blocks of counts as the file holds them: numbers with their big end first, one after
//! the other.

use vstd::prelude::*;

use crate::bytes;

verus! {

/// Entry `i` of a table, or count `i` of a block, of `width` bytes each.
pub open spec fn number_at(raw: Seq<u8>, width: int, i: int) -> nat {
    bytes::be_value(raw.subrange(i * width, i * width + width))
}

/// The bytes of the first `n` of those numbers.
pub open spec fn numbers(values: Seq<nat>, width: nat, n: int) -> Seq<u8>
    decreases n,
{
    if n <= 0 {
        Seq::empty()
    } else {
        numbers(values, width, n - 1) + bytes::be_bytes(values[n - 1], width)
    }
}

/// The entries of a table, as numbers.
pub open spec fn entry_numbers(table: Seq<u64>) -> Seq<nat> {
    Seq::new(table.len(), |i: int| table[i] as nat)
}

/// The counts of a block, as numbers.
pub open spec fn count_numbers(counts: Seq<u16>) -> Seq<nat> {
    Seq::new(counts.len(), |i: int| counts[i] as nat)
}

/// The entries of a table. Bytes at the end that make up no entry are left out.
pub fn read_pointer_table(raw: &[u8]) -> (r: Vec<u64>)
    ensures
        r@.len() == raw@.len() / 8,
        forall|i: int| 0 <= i < r@.len() ==> (#[trigger] r@[i]) as nat == number_at(raw@, 8, i),
{
    let len: usize = raw.len();
    let n: usize = len / 8;
    let mut out: Vec<u64> = Vec::new();
    let mut i: usize = 0;
    while i < n
        invariant
            i <= n,
            len == raw@.len(),
            n == len / 8,
            out@.len() == i,
            forall|k: int| 0 <= k < i ==> (#[trigger] out@[k]) as nat == number_at(raw@, 8, k),
        decreases n - i,
    {
        out.push(bytes::get_be64(raw, i * 8));
        i = i + 1;
    }
    out
}

/// The bytes of a table.
pub fn pointer_table_bytes(table: &[u64]) -> (r: Vec<u8>)
    ensures
        r@ == numbers(entry_numbers(table@), 8, table@.len() as int),
{
    let mut out: Vec<u8> = Vec::new();
    let mut i: usize = 0;
    while i < table.len()
        invariant
            i <= table@.len(),
            out@ == numbers(entry_numbers(table@), 8, i as int),
        decreases table@.len() - i,
    {
        out.extend_from_slice(bytes::be64_bytes(table[i]).as_slice());
        i = i + 1;
        assert(out@ =~= numbers(entry_numbers(table@), 8, i as int));
    }
    out
}

/// The counts of a block. A byte at the end that makes up no count is left out.
pub fn read_refcount_block(raw: &[u8]) -> (r: Vec<u16>)
    ensures
        r@.len() == raw@.len() / 2,
        forall|i: int| 0 <= i < r@.len() ==> (#[trigger] r@[i]) as nat == number_at(raw@, 2, i),
{
    let len: usize = raw.len();
    let n: usize = len / 2;
    let mut out: Vec<u16> = Vec::new();
    let mut i: usize = 0;
    while i < n
        invariant
            i <= n,
            len == raw@.len(),
            n == len / 2,
            out@.len() == i,
            forall|k: int| 0 <= k < i ==> (#[trigger] out@[k]) as nat == number_at(raw@, 2, k),
        decreases n - i,
    {
        out.push(bytes::get_be16(raw, i * 2));
        i = i + 1;
    }
    out
}

/// The bytes of a block of counts.
pub fn refcount_block_bytes(counts: &[u16]) -> (r: Vec<u8>)
    ensures
        r@ == numbers(count_numbers(counts@), 2, counts@.len() as int),
{
    let mut out: Vec<u8> = Vec::new();
    let mut i: usize = 0;
    while i < counts.len()
        invariant
            i <= counts@.len(),
            out@ == numbers(count_numbers(counts@), 2, i as int),
        decreases counts@.len() - i,
    {
        out.extend_from_slice(bytes::be16_bytes(counts[i]).as_slice());
        i = i + 1;
        assert(out@ =~= numbers(count_numbers(counts@), 2, i as int));
    }
    out
}

/// How many bytes the numbers take.
proof fn numbers_len(values: Seq<nat>, width: nat, n: int)
    requires
        0 <= n <= values.len(),
    ensures
        numbers(values, width, n).len() == n * width,
    decreases n,
{
    if n > 0 {
        numbers_len(values, width, n - 1);
        bytes::be_bytes_len(values[n - 1], width);
        assert(n * width == (n - 1) * width + width) by (nonlinear_arith);
    } else {
        assert(0 * width == 0) by (nonlinear_arith);
    }
}

/// A table or block that is written and read again has the same numbers.
pub proof fn numbers_read_back(values: Seq<nat>, width: nat, n: int, i: int)
    requires
        0 <= i < n <= values.len(),
        forall|k: int| 0 <= k < values.len() ==> #[trigger] values[k] < bytes::byte_pow(width),
    ensures
        numbers(values, width, n).len() == n * width,
        number_at(numbers(values, width, n), width as int, i) == values[i],
    decreases n,
{
    numbers_len(values, width, n);
    numbers_len(values, width, n - 1);
    let all = numbers(values, width, n);
    let before = numbers(values, width, n - 1);
    bytes::be_bytes_len(values[n - 1], width);
    assert(0 <= i * width && n * width == (n - 1) * width + width) by (nonlinear_arith)
        requires
            0 <= i,
    ;
    if i == n - 1 {
        bytes::be_round_trip(values[i], width);
        assert(all.subrange(i * width, i * width + width) =~= bytes::be_bytes(values[i], width));
    } else {
        numbers_read_back(values, width, n - 1, i);
        assert(i * width + width <= (n - 1) * width) by (nonlinear_arith)
            requires
                i + 1 <= n - 1,
        ;
        assert(all.subrange(i * width, i * width + width) =~= before.subrange(
            i * width,
            i * width + width,
        ));
    }
}

/// A number in a table has its high byte first: a count is two bytes, and an entry eight.
pub proof fn numbers_have_their_big_end_first(raw: Seq<u8>, i: int)
    requires
        0 <= i,
    ensures
        i * 2 + 2 <= raw.len() ==> number_at(raw, 2, i) == raw[i * 2] * 0x100 + raw[i * 2 + 1],
        i * 8 + 8 <= raw.len() ==> number_at(raw, 8, i) == raw[i * 8] * 0x100_0000_0000_0000
            + raw[i * 8 + 1] * 0x1_0000_0000_0000 + raw[i * 8 + 2] * 0x100_0000_0000 + raw[i * 8 + 3]
            * 0x1_0000_0000 + raw[i * 8 + 4] * 0x100_0000 + raw[i * 8 + 5] * 0x1_0000 + raw[i * 8
            + 6] * 0x100 + raw[i * 8 + 7],
{
    if i * 2 + 2 <= raw.len() {
        bytes::be_value_2(raw.subrange(i * 2, i * 2 + 2));
    }
    if i * 8 + 8 <= raw.len() {
        let s = raw.subrange(i * 8, i * 8 + 8);
        bytes::be_value_8(s);
        bytes::be_value_4(s.subrange(0, 4));
        bytes::be_value_4(s.subrange(4, 8));
    }
}

} // verus!
