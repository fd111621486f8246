//! Fixed-width integers as bytes, in both byte orders.

use vstd::prelude::*;
use vstd::string::*;
use vstd::utf8::*;

verus! {

/// The number that `s` spells with its most significant byte first.
pub open spec fn be_value(s: Seq<u8>) -> nat
    decreases s.len(),
{
    if s.len() == 0 {
        0
    } else {
        be_value(s.drop_last()) * 256 + s.last() as nat
    }
}

/// The `n` low bytes of `v`, most significant byte first.
pub open spec fn be_bytes(v: nat, n: nat) -> Seq<u8>
    decreases n,
{
    if n == 0 {
        Seq::empty()
    } else {
        be_bytes(v / 256, (n - 1) as nat).push((v % 256) as u8)
    }
}

/// The number that `s` spells with its least significant byte first.
pub open spec fn le_value(s: Seq<u8>) -> nat {
    be_value(s.reverse())
}

/// The `n` low bytes of `v`, least significant byte first.
pub open spec fn le_bytes(v: nat, n: nat) -> Seq<u8> {
    be_bytes(v, n).reverse()
}

/// `256` to the power `n`.
pub open spec fn byte_pow(n: nat) -> nat
    decreases n,
{
    if n == 0 {
        1
    } else {
        256 * byte_pow((n - 1) as nat)
    }
}

/// `be_bytes` gives as many bytes as asked for.
pub proof fn be_bytes_len(v: nat, n: nat)
    ensures
        be_bytes(v, n).len() == n,
    decreases n,
{
    if n > 0 {
        be_bytes_len(v / 256, (n - 1) as nat);
    }
}

/// Reading back what was written gives the number, big end first.
pub proof fn be_round_trip(v: nat, n: nat)
    requires
        v < byte_pow(n),
    ensures
        be_bytes(v, n).len() == n,
        be_value(be_bytes(v, n)) == v,
    decreases n,
{
    be_bytes_len(v, n);
    if n > 0 {
        be_round_trip(v / 256, (n - 1) as nat);
        assert(be_bytes(v, n).drop_last() =~= be_bytes(v / 256, (n - 1) as nat));
    }
}

/// Reading back what was written gives the number, little end first.
pub proof fn le_round_trip(v: nat, n: nat)
    requires
        v < byte_pow(n),
    ensures
        le_bytes(v, n).len() == n,
        le_value(le_bytes(v, n)) == v,
{
    be_round_trip(v, n);
    assert(le_bytes(v, n).reverse() =~= be_bytes(v, n));
}

/// Writing back what was read gives the bytes.
pub proof fn be_bytes_of_value(s: Seq<u8>)
    ensures
        be_bytes(be_value(s), s.len()) == s,
    decreases s.len(),
{
    if s.len() > 0 {
        be_bytes_of_value(s.drop_last());
        assert(be_value(s) / 256 == be_value(s.drop_last()));
        assert(be_value(s) % 256 == s.last());
        assert(be_bytes(be_value(s), s.len()) =~= s.drop_last().push(s.last()));
    }
}

/// The powers that bound two, four and eight bytes.
pub proof fn byte_pow_values()
    ensures
        byte_pow(1) == 0x100,
        byte_pow(2) == 0x1_0000,
        byte_pow(4) == 0x1_0000_0000,
        byte_pow(8) == 0x1_0000_0000_0000_0000,
{
    reveal_with_fuel(byte_pow, 9);
}

/// What two bytes spell.
pub proof fn be_value_2(s: Seq<u8>)
    requires
        s.len() == 2,
    ensures
        be_value(s) == s[0] * 0x100 + s[1],
{
    reveal_with_fuel(be_value, 3);
}

/// What four bytes spell.
pub proof fn be_value_4(s: Seq<u8>)
    requires
        s.len() == 4,
    ensures
        be_value(s) == s[0] * 0x100_0000 + s[1] * 0x1_0000 + s[2] * 0x100 + s[3],
{
    reveal_with_fuel(be_value, 5);
}

/// What eight bytes spell.
pub proof fn be_value_8(s: Seq<u8>)
    requires
        s.len() == 8,
    ensures
        be_value(s) == be_value(s.subrange(0, 4)) * 0x1_0000_0000 + be_value(s.subrange(4, 8)),
{
    reveal_with_fuel(be_value, 9);
    be_value_4(s.subrange(0, 4));
    be_value_4(s.subrange(4, 8));
}

/// Reads two bytes at `at`, big end first.
pub fn get_be16(b: &[u8], at: usize) -> (r: u16)
    requires
        at + 2 <= b.len(),
    ensures
        r as nat == be_value(b@.subrange(at as int, at + 2)),
{
    proof {
        be_value_2(b@.subrange(at as int, at + 2));
    }
    b[at] as u16 * 0x100 + b[at + 1] as u16
}

/// Reads four bytes at `at`, big end first.
pub fn get_be32(b: &[u8], at: usize) -> (r: u32)
    requires
        at + 4 <= b.len(),
    ensures
        r as nat == be_value(b@.subrange(at as int, at + 4)),
{
    proof {
        be_value_4(b@.subrange(at as int, at + 4));
    }
    b[at] as u32 * 0x100_0000 + b[at + 1] as u32 * 0x1_0000 + b[at + 2] as u32 * 0x100
        + b[at + 3] as u32
}

/// Reads eight bytes at `at`, big end first.
pub fn get_be64(b: &[u8], at: usize) -> (r: u64)
    requires
        at + 8 <= b.len(),
    ensures
        r as nat == be_value(b@.subrange(at as int, at + 8)),
{
    proof {
        let s = b@.subrange(at as int, at + 8);
        be_value_8(s);
        assert(s.subrange(0, 4) =~= b@.subrange(at as int, at + 4));
        assert(s.subrange(4, 8) =~= b@.subrange(at + 4, at + 8));
    }
    get_be32(b, at) as u64 * 0x1_0000_0000 + get_be32(b, at + 4) as u64
}

/// The two bytes of `v`, big end first.
pub fn be16_bytes(v: u16) -> (r: [u8; 2])
    ensures
        r@ == be_bytes(v as nat, 2),
{
    let r = [(v / 256) as u8, (v % 256) as u8];
    proof {
        reveal_with_fuel(be_bytes, 3);
        assert(r@ =~= be_bytes(v as nat, 2));
    }
    r
}

/// The four bytes of `v`, big end first.
pub fn be32_bytes(v: u32) -> (r: [u8; 4])
    ensures
        r@ == be_bytes(v as nat, 4),
{
    let v1: u32 = v / 256;
    let v2: u32 = v1 / 256;
    let v3: u32 = v2 / 256;
    let r = [v3 as u8, (v2 % 256) as u8, (v1 % 256) as u8, (v % 256) as u8];
    proof {
        reveal_with_fuel(be_bytes, 5);
        assert(r@ =~= be_bytes(v as nat, 4));
    }
    r
}

/// The eight bytes of `v`, big end first.
pub fn be64_bytes(v: u64) -> (r: [u8; 8])
    ensures
        r@ == be_bytes(v as nat, 8),
{
    let v1: u64 = v / 256;
    let v2: u64 = v1 / 256;
    let v3: u64 = v2 / 256;
    let v4: u64 = v3 / 256;
    let v5: u64 = v4 / 256;
    let v6: u64 = v5 / 256;
    let v7: u64 = v6 / 256;
    let r = [
        v7 as u8,
        (v6 % 256) as u8,
        (v5 % 256) as u8,
        (v4 % 256) as u8,
        (v3 % 256) as u8,
        (v2 % 256) as u8,
        (v1 % 256) as u8,
        (v % 256) as u8,
    ];
    proof {
        reveal_with_fuel(be_bytes, 9);
        assert(r@ =~= be_bytes(v as nat, 8));
    }
    r
}

/// The two bytes of `v`, little end first.
pub fn le16_bytes(v: u16) -> (r: [u8; 2])
    ensures
        r@ == le_bytes(v as nat, 2),
{
    let b = be16_bytes(v);
    let r = [b[1], b[0]];
    proof {
        assert(r@ =~= b@.reverse());
    }
    r
}

/// The four bytes of `v`, little end first.
pub fn le32_bytes(v: u32) -> (r: [u8; 4])
    ensures
        r@ == le_bytes(v as nat, 4),
{
    let b = be32_bytes(v);
    let r = [b[3], b[2], b[1], b[0]];
    proof {
        assert(r@ =~= b@.reverse());
    }
    r
}

/// The eight bytes of `v`, little end first.
pub fn le64_bytes(v: u64) -> (r: [u8; 8])
    ensures
        r@ == le_bytes(v as nat, 8),
{
    let b = be64_bytes(v);
    let r = [b[7], b[6], b[5], b[4], b[3], b[2], b[1], b[0]];
    proof {
        assert(r@ =~= b@.reverse());
    }
    r
}

/// Reads two bytes at `at`, little end first.
pub fn get_le16(b: &[u8], at: usize) -> (r: u16)
    requires
        at + 2 <= b.len(),
    ensures
        r as nat == le_value(b@.subrange(at as int, at + 2)),
{
    proof {
        be_value_2(b@.subrange(at as int, at + 2).reverse());
    }
    b[at + 1] as u16 * 0x100 + b[at] as u16
}

/// Reads four bytes at `at`, little end first.
pub fn get_le32(b: &[u8], at: usize) -> (r: u32)
    requires
        at + 4 <= b.len(),
    ensures
        r as nat == le_value(b@.subrange(at as int, at + 4)),
{
    proof {
        be_value_4(b@.subrange(at as int, at + 4).reverse());
    }
    b[at + 3] as u32 * 0x100_0000 + b[at + 2] as u32 * 0x1_0000 + b[at + 1] as u32 * 0x100
        + b[at] as u32
}

/// Whether two byte strings are the same.
pub fn bytes_equal(a: &[u8], b: &[u8]) -> (r: bool)
    ensures
        r == (a@ == b@),
{
    if a.len() != b.len() {
        return false;
    }
    let mut i: usize = 0;
    while i < a.len()
        invariant
            i <= a@.len(),
            a@.len() == b@.len(),
            forall|j: int| 0 <= j < i ==> a@[j] == b@[j],
        decreases a@.len() - i,
    {
        if a[i] != b[i] {
            return false;
        }
        i = i + 1;
    }
    assert(a@ =~= b@);
    true
}

/// Whether two texts are the same.
pub fn text_equal(a: &str, b: &str) -> (r: bool)
    ensures
        r == (a@ == b@),
{
    let r = bytes_equal(a.as_bytes(), b.as_bytes());
    proof {
        encode_utf8_decode_utf8(a@);
        encode_utf8_decode_utf8(b@);
    }
    r
}

} // verus!
