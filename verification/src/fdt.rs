//! Just enough flattened device tree to read one property and overwrite another in place.
//!
//! Nothing here moves a byte of the structure block, and every read is bounds-checked: a tree
//! that went wrong is an error, never a walk off the end.

use vstd::prelude::*;
use vstd::string::*;

use crate::bytes;

verus! {

pub const FDT_MAGIC: u32 = 0xd00d_feed;

pub const FDT_BEGIN_NODE: u32 = 1;

pub const FDT_END_NODE: u32 = 2;

pub const FDT_PROP: u32 = 3;

pub const FDT_NOP: u32 = 4;

pub const FDT_END: u32 = 9;

/// Nesting deeper than this is not a tree; it is a blob that went wrong.
pub const MAX_DEPTH: usize = 24;

#[derive(Debug, Clone, Copy, PartialEq, Eq, Structural)]
pub enum Error {
    BadMagic,
    Truncated,
    BadTag,
    TooDeep,
    NotFound,
}

/// What to look for: a node by the name of a direct child of the root, or by a string in some
/// node's `compatible` list at any depth.
#[derive(Clone, Copy)]
pub enum Match<'a> {
    RootChild(&'a str),
    Compatible(&'a str),
}

/// Where the structure block and the strings block of a tree lie.
pub struct Blocks {
    pub struct_off: int,
    pub struct_len: int,
    pub strings_off: int,
    pub strings_len: int,
}

impl Blocks {
    /// Position just behind the structure block.
    pub open spec fn end(self) -> int {
        self.struct_off + self.struct_len
    }

    /// Both blocks lie inside a blob of `len` bytes.
    pub open spec fn fit(self, len: int) -> bool {
        &&& 0 <= self.struct_off
        &&& 0 <= self.struct_len
        &&& 0 <= self.strings_off
        &&& 0 <= self.strings_len
        &&& self.end() <= len
        &&& self.strings_off + self.strings_len <= len
    }
}

/// The 32-bit cell at `at`.
pub open spec fn cell(b: Seq<u8>, at: int) -> int {
    bytes::be_value(b.subrange(at, at + 4)) as int
}

/// The blocks that the header of `b` declares.
pub open spec fn header_blocks(b: Seq<u8>) -> Blocks {
    Blocks {
        struct_off: cell(b, 8),
        struct_len: cell(b, 36),
        strings_off: cell(b, 12),
        strings_len: cell(b, 32),
    }
}

/// What opening `b` as a tree gives.
pub open spec fn open_result(b: Seq<u8>) -> Result<Blocks, Error> {
    if b.len() < 4 {
        Err(Error::Truncated)
    } else if cell(b, 0) != FDT_MAGIC {
        Err(Error::BadMagic)
    } else if b.len() < 40 || !header_blocks(b).fit(b.len() as int) {
        Err(Error::Truncated)
    } else {
        Ok(header_blocks(b))
    }
}

/// Position of the first NUL at or behind `at`.
pub open spec fn nul_from(b: Seq<u8>, at: int) -> Option<int>
    decreases b.len() - at,
{
    if at < 0 || at >= b.len() {
        None
    } else if b[at] == 0 {
        Some(at)
    } else {
        nul_from(b, at + 1)
    }
}

/// `n` rounded up to a multiple of four.
pub open spec fn round4(n: int) -> int {
    (n + 3) / 4 * 4
}

/// The property name at offset `nameoff` of the strings block.
pub open spec fn name_at(b: Seq<u8>, k: Blocks, nameoff: int) -> Option<Seq<u8>> {
    let s = b.subrange(k.strings_off, k.strings_off + k.strings_len);
    match nul_from(s, nameoff) {
        Some(e) => Some(s.subrange(nameoff, e)),
        None => None,
    }
}

/// `c` is one of the NUL-separated strings of `val`, the one that starts at `i`.
pub open spec fn listed_at(val: Seq<u8>, c: Seq<u8>, i: int) -> bool {
    &&& 0 <= i
    &&& i + c.len() <= val.len()
    &&& i == 0 || val[i - 1] == 0
    &&& i + c.len() == val.len() || val[i + c.len()] == 0
    &&& val.subrange(i, i + c.len()) == c
    &&& !c.contains(0u8)
}

/// `c` is one of the NUL-separated strings of `val`.
pub open spec fn listed(val: Seq<u8>, c: Seq<u8>) -> bool {
    exists|i: int| listed_at(val, c, i)
}

/// One element of the structure block.
pub enum Token {
    Begin { name: Seq<u8> },
    End,
    Prop { at: int, len: int, nameoff: int },
    Nop,
    Stop,
}

/// The element of the structure block at `p`, and the position of the next one.
pub open spec fn token(b: Seq<u8>, end: int, p: int) -> Result<(Token, int), Error> {
    if p < 0 || p + 4 > b.len() {
        Err(Error::Truncated)
    } else if cell(b, p) == FDT_BEGIN_NODE {
        match nul_from(b, p + 4) {
            Some(e) => Ok(
                (Token::Begin { name: b.subrange(p + 4, e) }, p + 4 + round4(e - (p + 4) + 1)),
            ),
            None => Err(Error::Truncated),
        }
    } else if cell(b, p) == FDT_END_NODE {
        Ok((Token::End, p + 4))
    } else if cell(b, p) == FDT_PROP {
        if p + 12 > b.len() || p + 12 + cell(b, p + 4) > end {
            Err(Error::Truncated)
        } else {
            Ok(
                (
                    Token::Prop { at: p + 12, len: cell(b, p + 4), nameoff: cell(b, p + 8) },
                    p + 12 + round4(cell(b, p + 4)),
                ),
            )
        }
    } else if cell(b, p) == FDT_NOP {
        Ok((Token::Nop, p + 4))
    } else if cell(b, p) == FDT_END {
        Ok((Token::Stop, p + 4))
    } else {
        Err(Error::BadTag)
    }
}

/// What is known of a node that is still open.
#[derive(Clone, Copy)]
pub struct Frame {
    pub val: Option<(usize, usize)>,
    pub matched: bool,
}

impl<'a> Match<'a> {
    /// The node called `name` that opens inside `depth` others is one by its name alone.
    pub open spec fn by_name(self, depth: int, name: Seq<u8>) -> bool {
        match self {
            Match::RootChild(n) => depth == 1 && name == n.spec_bytes(),
            Match::Compatible(_) => false,
        }
    }

    /// A property `name` of value `val` makes the node that holds it one.
    pub open spec fn by_prop(self, name: Seq<u8>, val: Seq<u8>) -> bool {
        match self {
            Match::RootChild(_) => false,
            Match::Compatible(c) => name == "compatible".spec_bytes() && listed(
                val,
                c.spec_bytes(),
            ),
        }
    }
}

/// The frame `f` once the property `name` with the value at `at` was seen.
pub open spec fn with_prop(
    f: Frame,
    want: Match,
    prop: Seq<u8>,
    b: Seq<u8>,
    name: Seq<u8>,
    at: int,
    len: int,
) -> Frame {
    Frame {
        val: if name == prop {
            Some((at as usize, len as usize))
        } else {
            f.val
        },
        matched: f.matched || want.by_prop(name, b.subrange(at, at + len)),
    }
}

/// What the walk from `p` gives, with `stack` for the nodes that are open there.
#[verifier::opaque]
pub open spec fn walk(
    b: Seq<u8>,
    k: Blocks,
    want: Match,
    prop: Seq<u8>,
    p: int,
    stack: Seq<Frame>,
) -> Result<(usize, usize), Error>
    decreases
            (if p < k.end() {
                k.end() - p
            } else {
                0
            }),
{
    if p >= k.end() {
        Err(Error::NotFound)
    } else {
        match token(b, k.end(), p) {
            Err(e) => Err(e),
            Ok((t, next)) => if next <= p {
                Err(Error::BadTag)
            } else {
                match t {
                    Token::Begin { name } => if stack.len() >= MAX_DEPTH {
                        Err(Error::TooDeep)
                    } else {
                        let f = Frame {
                            val: None,
                            matched: want.by_name(stack.len() as int, name),
                        };
                        walk(b, k, want, prop, next, stack.push(f))
                    },
                    Token::End => if stack.len() == 0 {
                        Err(Error::BadTag)
                    } else if stack.last().matched && stack.last().val is Some {
                        Ok(stack.last().val->0)
                    } else {
                        walk(b, k, want, prop, next, stack.drop_last())
                    },
                    Token::Prop { at, len, nameoff } => if stack.len() == 0 {
                        Err(Error::BadTag)
                    } else {
                        match name_at(b, k, nameoff) {
                            None => Err(Error::Truncated),
                            Some(name) => {
                                let f = with_prop(stack.last(), want, prop, b, name, at, len);
                                walk(b, k, want, prop, next, stack.drop_last().push(f))
                            },
                        }
                    },
                    Token::Nop => walk(b, k, want, prop, next, stack),
                    Token::Stop => Err(Error::NotFound),
                }
            },
        }
    }
}

/// Where the value of `prop` lives, for the first node to close that `want` picks out and that
/// has such a property.
pub open spec fn find(b: Seq<u8>, k: Blocks, want: Match, prop: Seq<u8>) -> Result<
    (usize, usize),
    Error,
> {
    walk(b, k, want, prop, k.struct_off, Seq::empty())
}

/// Behind the structure block there is nothing to find.
proof fn walk_ends(b: Seq<u8>, k: Blocks, want: Match, prop: Seq<u8>, p: int, stack: Seq<Frame>)
    requires
        p >= k.end(),
    ensures
        walk(b, k, want, prop, p, stack) == Err::<(usize, usize), Error>(Error::NotFound),
{
    reveal_with_fuel(walk, 1);
}

/// What the walk does with the element at `p`.
proof fn walk_steps(b: Seq<u8>, k: Blocks, want: Match, prop: Seq<u8>, p: int, stack: Seq<Frame>)
    requires
        p < k.end(),
    ensures
        match token(b, k.end(), p) {
            Err(e) => walk(b, k, want, prop, p, stack) == Err::<(usize, usize), Error>(e),
            Ok((t, next)) => next > p && walk(b, k, want, prop, p, stack) == (match t {
                Token::Begin { name } => if stack.len() >= MAX_DEPTH {
                    Err(Error::TooDeep)
                } else {
                    let f = Frame { val: None, matched: want.by_name(stack.len() as int, name) };
                    walk(b, k, want, prop, next, stack.push(f))
                },
                Token::End => if stack.len() == 0 {
                    Err(Error::BadTag)
                } else if stack.last().matched && stack.last().val is Some {
                    Ok(stack.last().val->0)
                } else {
                    walk(b, k, want, prop, next, stack.drop_last())
                },
                Token::Prop { at, len, nameoff } => if stack.len() == 0 {
                    Err(Error::BadTag)
                } else {
                    match name_at(b, k, nameoff) {
                        None => Err(Error::Truncated),
                        Some(name) => {
                            let f = with_prop(stack.last(), want, prop, b, name, at, len);
                            walk(b, k, want, prop, next, stack.drop_last().push(f))
                        },
                    }
                },
                Token::Nop => walk(b, k, want, prop, next, stack),
                Token::Stop => Err(Error::NotFound),
            }),
        },
{
    nul_from_step(b, p + 4);
    reveal_with_fuel(walk, 1);
}

/// A NUL that was found is not before where the search began.
pub proof fn nul_from_step(b: Seq<u8>, at: int)
    ensures
        nul_from(b, at) matches Some(e) ==> at <= e < b.len(),
    decreases b.len() - at,
{
    if 0 <= at < b.len() && b[at] != 0 {
        nul_from_step(b, at + 1);
    }
}

/// Reads the 32-bit cell at `at`.
fn be32(b: &[u8], at: usize) -> (r: Result<u32, Error>)
    ensures
        at + 4 <= b@.len() ==> r == Ok::<u32, Error>(cell(b@, at as int) as u32) && cell(
            b@,
            at as int,
        ) <= u32::MAX,
        at + 4 > b@.len() ==> r == Err::<u32, Error>(Error::Truncated),
{
    if at > b.len() || b.len() - at < 4 {
        return Err(Error::Truncated);
    }
    Ok(bytes::get_be32(b, at))
}

/// Reads a 64-bit number from the first eight bytes.
pub fn be64(b: &[u8]) -> (r: Result<u64, Error>)
    ensures
        b@.len() >= 8 ==> r is Ok && r->Ok_0 == bytes::be_value(b@.subrange(0, 8)),
        b@.len() < 8 ==> r == Err::<u64, Error>(Error::Truncated),
{
    if b.len() < 8 {
        return Err(Error::Truncated);
    }
    Ok(bytes::get_be64(b, 0))
}

/// `b` with the bytes from `at` on replaced by `s`.
pub open spec fn splice(b: Seq<u8>, at: int, s: Seq<u8>) -> Seq<u8> {
    Seq::new(
        b.len(),
        |i: int|
            if at <= i < at + s.len() {
                s[i - at]
            } else {
                b[i]
            },
    )
}

/// Overwrites the eight bytes at `at`.
fn put_at(b: &mut [u8], at: usize, v: u64)
    requires
        at + 8 <= old(b).len(),
    ensures
        final(b)@ == splice(old(b)@, at as int, bytes::be_bytes(v as nat, 8)),
{
    let s = bytes::be64_bytes(v);
    let mut i: usize = 0;
    while i < 8
        invariant
            i <= 8,
            s@ == bytes::be_bytes(v as nat, 8),
            b@.len() == old(b)@.len(),
            at + 8 <= old(b).len(),
            forall|j: int|
                0 <= j < b@.len() ==> b@[j] == (if at <= j < at + i {
                    s@[j - at]
                } else {
                    old(b)@[j]
                }),
        decreases 8 - i,
    {
        b[at + i] = s[i];
        i = i + 1;
    }
    assert(b@ =~= splice(old(b)@, at as int, s@));
}

/// Writes a 64-bit number over the first eight bytes.
pub fn put_be64(b: &mut [u8], v: u64) -> (r: Result<(), Error>)
    ensures
        old(b)@.len() >= 8 ==> r is Ok && final(b)@ == splice(old(b)@, 0, bytes::be_bytes(v as nat, 8)),
        old(b)@.len() < 8 ==> r == Err::<(), Error>(Error::Truncated) && final(b)@ == old(b)@,
{
    if b.len() < 8 {
        return Err(Error::Truncated);
    }
    put_at(b, 0, v);
    Ok(())
}

/// A NUL-terminated string starting at `at`, as bytes, without the terminator.
fn cstr(b: &[u8], at: usize) -> (r: Result<&[u8], Error>)
    ensures
        match nul_from(b@, at as int) {
            Some(e) => r is Ok && at <= e < b@.len() && r->Ok_0@ == b@.subrange(at as int, e),
            None => r is Err && r->Err_0 == Error::Truncated,
        },
{
    let mut e: usize = at;
    while e < b.len()
        invariant
            at <= e,
            e <= b.len() || e == at,
            nul_from(b@, at as int) == nul_from(b@, e as int),
        decreases b@.len() - e,
    {
        if b[e] == 0 {
            return Ok(vstd::slice::slice_subrange(b, at, e));
        }
        e = e + 1;
    }
    Err(Error::Truncated)
}

/// Whether `c` is one of the NUL-separated strings of `val`.
fn lists(val: &[u8], c: &[u8]) -> (r: bool)
    ensures
        r == listed(val@, c@),
{
    let mut start: usize = 0;
    loop
        invariant
            start <= val.len(),
            start == 0 || val@[start - 1] == 0,
            forall|i: int| 0 <= i < start ==> !listed_at(val@, c@, i),
        decreases val@.len() - start,
    {
        let mut e: usize = start;
        while e < val.len() && val[e] != 0
            invariant
                start <= e <= val.len(),
                forall|j: int| start <= j < e ==> val@[j] != 0,
            decreases val@.len() - e,
        {
            e = e + 1;
        }
        let piece = vstd::slice::slice_subrange(val, start, e);
        if bytes::bytes_equal(piece, c) {
            proof {
                assert(listed_at(val@, c@, start as int)) by {
                    assert(val@.subrange(start as int, start + c@.len()) =~= c@);
                    assert forall|j: int| 0 <= j < c@.len() implies c@[j] != 0u8 by {
                        assert(c@[j] == val@[start + j]);
                    }
                }
            }
            return true;
        }
        proof {
            assert forall|i: int| 0 <= i <= e implies !listed_at(val@, c@, i) by {
                if i == start && listed_at(val@, c@, i) {
                    let n = c@.len() as int;
                    if start + n < e {
                        assert(val@[start + n] != 0);
                    } else if start + n > e {
                        assert(c@[e - start] == val@.subrange(i, i + n)[e - start]);
                        assert(c@[e - start] == 0u8);
                        assert(c@.contains(0u8));
                    } else {
                        assert(piece@ =~= val@.subrange(i, i + n));
                    }
                } else if start < i {
                    assert(val@[i - 1] != 0);
                }
            }
        }
        if e == val.len() {
            return false;
        }
        start = e + 1;
    }
}

/// A `reg` of `len` bytes whose first range is the window and whose other ranges are empty.
pub open spec fn window_reg(base: u64, size: u64, len: int) -> Seq<u8> {
    bytes::be_bytes(base as nat, 8) + bytes::be_bytes(size as nat, 8) + Seq::new(
        (len - 16) as nat,
        |i: int| 0u8,
    )
}

/// Zero is written as eight zero bytes.
proof fn zero_bytes()
    ensures
        bytes::be_bytes(0, 8) == Seq::new(8, |i: int| 0u8),
        forall|v: nat| (#[trigger] bytes::be_bytes(v, 8)).len() == 8,
{
    reveal_with_fuel(bytes::be_bytes, 9);
    assert(bytes::be_bytes(0, 8) =~= Seq::new(8, |i: int| 0u8));
    assert forall|v: nat| (#[trigger] bytes::be_bytes(v, 8)).len() == 8 by {
        bytes::be_bytes_len(v, 8);
    }
}

/// Every value that a frame of `stack` holds lies between the blob's start and `p`.
pub open spec fn values_before(stack: Seq<Frame>, p: int) -> bool {
    forall|i: int|
        0 <= i < stack.len() ==> ((#[trigger] stack[i]).val matches Some((at, len)) ==> at + len
            <= p)
}

/// A value that the walk from `p` gives lies inside the structure block; it was known already, or
/// it lies behind `p`.
pub proof fn walk_stays_inside(
    b: Seq<u8>,
    k: Blocks,
    want: Match,
    prop: Seq<u8>,
    p: int,
    stack: Seq<Frame>,
)
    requires
        0 <= p,
        k.fit(b.len() as int),
        b.len() <= usize::MAX,
        values_before(stack, k.end()),
    ensures
        walk(b, k, want, prop, p, stack) matches Ok((at, len)) ==> at + len <= k.end() && (at >= p
            + 12 || exists|i: int|
            0 <= i < stack.len() && (#[trigger] stack[i]).val == Some((at, len))),
    decreases
            (if p < k.end() {
                k.end() - p
            } else {
                0
            }),
{
    reveal_with_fuel(walk, 1);
    if p < k.end() {
        if let Ok((t, next)) = token(b, k.end(), p) {
            if next > p {
                match t {
                    Token::Begin { name } => {
                        if stack.len() < MAX_DEPTH {
                            let f = Frame {
                                val: None,
                                matched: want.by_name(stack.len() as int, name),
                            };
                            let now = stack.push(f);
                            walk_stays_inside(b, k, want, prop, next, now);
                            if let Ok((at, len)) = walk(b, k, want, prop, p, stack) {
                                if at < p + 12 {
                                    let i = choose|i: int|
                                        0 <= i < now.len() && (#[trigger] now[i]).val == Some(
                                            (at, len),
                                        );
                                    assert(stack[i].val == Some((at, len)));
                                }
                            }
                        }
                    },
                    Token::End => {
                        if stack.len() > 0 {
                            let now = stack.drop_last();
                            if stack.last().matched && stack.last().val is Some {
                                assert(stack[stack.len() - 1].val is Some);
                            } else {
                                walk_stays_inside(b, k, want, prop, next, now);
                                if let Ok((at, len)) = walk(b, k, want, prop, p, stack) {
                                    if at < p + 12 {
                                        let i = choose|i: int|
                                            0 <= i < now.len() && (#[trigger] now[i]).val == Some(
                                                (at, len),
                                            );
                                        assert(stack[i].val == Some((at, len)));
                                    }
                                }
                            }
                        }
                    },
                    Token::Prop { at: a, len: l, nameoff } => {
                        if stack.len() > 0 {
                            if let Some(name) = name_at(b, k, nameoff) {
                                let f = with_prop(stack.last(), want, prop, b, name, a, l);
                                let now = stack.drop_last().push(f);
                                assert(stack[stack.len() - 1] == stack.last());
                                walk_stays_inside(b, k, want, prop, next, now);
                                if let Ok((at, len)) = walk(b, k, want, prop, p, stack) {
                                    if at < p + 12 {
                                        let i = choose|i: int|
                                            0 <= i < now.len() && (#[trigger] now[i]).val == Some(
                                                (at, len),
                                            );
                                        assert(stack[i].val == Some((at, len)));
                                    }
                                }
                            }
                        }
                    },
                    Token::Nop => {
                        walk_stays_inside(b, k, want, prop, next, stack);
                    },
                    Token::Stop => {},
                }
            }
        }
    }
}

/// A flattened device tree in memory that someone else owns.
pub struct Fdt<'a> {
    pub blob: &'a mut [u8],
    pub struct_off: usize,
    pub struct_len: usize,
    pub strings_off: usize,
    pub strings_len: usize,
}

impl<'a> Fdt<'a> {
    /// The bytes of the tree.
    pub open spec fn bytes(&self) -> Seq<u8> {
        self.blob@
    }

    /// Where the blocks of the tree lie.
    pub open spec fn blocks(&self) -> Blocks {
        Blocks {
            struct_off: self.struct_off as int,
            struct_len: self.struct_len as int,
            strings_off: self.strings_off as int,
            strings_len: self.strings_len as int,
        }
    }

    /// The blocks lie inside the blob.
    pub open spec fn wf(&self) -> bool {
        self.blocks().fit(self.bytes().len() as int)
    }

    /// Takes `blob` for a tree, if its header can be one's.
    pub fn new(blob: &'a mut [u8]) -> (r: Result<Self, Error>)
        ensures
            match open_result(old(blob)@) {
                Ok(k) => r is Ok && r->Ok_0.wf() && r->Ok_0.bytes() == old(blob)@
                    && r->Ok_0.blocks() == k && final(r->Ok_0.blob)@ == final(blob)@,
                Err(e) => r is Err && r->Err_0 == e && final(blob)@ == old(blob)@,
            },
    {
        let magic: u32 = match be32(blob, 0) {
            Ok(v) => v,
            Err(e) => {
                return Err(e);
            },
        };
        if magic != FDT_MAGIC {
            return Err(Error::BadMagic);
        }
        if blob.len() < 40 {
            return Err(Error::Truncated);
        }
        let struct_off: usize = bytes::get_be32(blob, 8) as usize;
        let strings_off: usize = bytes::get_be32(blob, 12) as usize;
        let strings_len: usize = bytes::get_be32(blob, 32) as usize;
        let struct_len: usize = bytes::get_be32(blob, 36) as usize;
        if struct_off > blob.len() || struct_len > blob.len() - struct_off || strings_off
            > blob.len() || strings_len > blob.len() - strings_off {
            return Err(Error::Truncated);
        }
        Ok(Fdt { blob, struct_off, struct_len, strings_off, strings_len })
    }

    /// The property name at offset `nameoff` of the strings block.
    fn prop_name(&self, nameoff: usize) -> (r: Result<&[u8], Error>)
        requires
            self.wf(),
        ensures
            match name_at(self.bytes(), self.blocks(), nameoff as int) {
                Some(n) => r is Ok && r->Ok_0@ == n,
                None => r is Err && r->Err_0 == Error::Truncated,
            },
    {
        let b: &[u8] = &*self.blob;
        let n: usize = b.len();
        assert(self.strings_off + self.strings_len <= n);
        let strings = vstd::slice::slice_subrange(
            b,
            self.strings_off,
            self.strings_off + self.strings_len,
        );
        cstr(strings, nameoff)
    }

    /// Where the value of `prop` lives inside the blob, for the node that `want` picks out.
    ///
    /// What is remembered is remembered per node: of several nodes that each have such a
    /// property, the one that matches gives its own.
    #[verifier::rlimit(80)]
    pub fn find_prop(&self, want: Match, prop: &str) -> (r: Result<(usize, usize), Error>)
        requires
            self.wf(),
        ensures
            r == find(self.bytes(), self.blocks(), want, prop.spec_bytes()),
    {
        let none = Frame { val: None, matched: false };
        let mut stack: [Frame; 24] = [none;24];
        let mut depth: usize = 0;
        let mut p: usize = self.struct_off;
        let b: &[u8] = &*self.blob;
        let n: usize = b.len();
        assert(self.struct_off + self.struct_len <= n);
        let end: usize = self.struct_off + self.struct_len;
        let ghost k = self.blocks();
        assert(stack@.subrange(0, 0) =~= Seq::empty());
        while p < end
            invariant
                self.wf(),
                b@ == self.bytes(),
                k == self.blocks(),
                end == k.end(),
                end <= b.len(),
                depth <= MAX_DEPTH,
                stack@.len() == MAX_DEPTH,
                find(b@, k, want, prop.spec_bytes()) == walk(
                    b@,
                    k,
                    want,
                    prop.spec_bytes(),
                    p as int,
                    stack@.subrange(0, depth as int),
                ),
            decreases
                    (if p < end {
                        end - p
                    } else {
                        0
                    }),
        {
            let ghost p0 = p as int;
            let ghost open = stack@.subrange(0, depth as int);
            proof {
                walk_steps(b@, k, want, prop.spec_bytes(), p0, open);
            }
            let tag: u32 = match be32(b, p) {
                Ok(v) => v,
                Err(e) => {
                    return Err(e);
                },
            };
            p = p + 4;
            if tag == FDT_BEGIN_NODE {
                let name = match cstr(b, p) {
                    Ok(n) => n,
                    Err(e) => {
                        return Err(e);
                    },
                };
                let pad: usize = 4 - name.len() % 4;
                let ghost next = p + name@.len() + pad;
                proof {
                    assert(round4((name@.len() + 1) as int) == name@.len() + pad);
                    assert(token(b@, end as int, p0) == Ok::<(Token, int), Error>(
                        (Token::Begin { name: name@ }, next),
                    ));
                }
                p = (p + name.len()).saturating_add(pad);
                if depth >= MAX_DEPTH {
                    return Err(Error::TooDeep);
                }
                // Depth 0 is the root, so its direct children open at depth 1.
                let matched = match want {
                    Match::RootChild(n) => depth == 1 && bytes::bytes_equal(name, n.as_bytes()),
                    Match::Compatible(_) => false,
                };
                stack[depth] = Frame { val: None, matched };
                depth = depth + 1;
                proof {
                    let now = open.push(stack@[depth - 1]);
                    assert(stack@.subrange(0, depth as int) =~= now);
                    if next > usize::MAX {
                        walk_ends(b@, k, want, prop.spec_bytes(), next, now);
                        walk_ends(b@, k, want, prop.spec_bytes(), p as int, now);
                    }
                }
            } else if tag == FDT_END_NODE {
                if depth == 0 {
                    return Err(Error::BadTag);
                }
                depth = depth - 1;
                proof {
                    assert(open.last() == stack@[depth as int]);
                    assert(stack@.subrange(0, depth as int) =~= open.drop_last());
                }
                if stack[depth].matched {
                    if let Some(hit) = stack[depth].val {
                        return Ok(hit);
                    }
                }
            } else if tag == FDT_PROP {
                let len: usize = match be32(b, p) {
                    Ok(v) => v as usize,
                    Err(e) => {
                        return Err(e);
                    },
                };
                let nameoff: usize = match be32(b, p + 4) {
                    Ok(v) => v as usize,
                    Err(e) => {
                        return Err(e);
                    },
                };
                let val_at: usize = p + 8;
                if val_at > end || len > end - val_at {
                    return Err(Error::Truncated);
                }
                let pad: usize = (4 - len % 4) % 4;
                let ghost next = val_at + len + pad;
                proof {
                    assert(round4(len as int) == len + pad);
                    assert(token(b@, end as int, p0) == Ok::<(Token, int), Error>(
                        (
                            Token::Prop {
                                at: val_at as int,
                                len: len as int,
                                nameoff: nameoff as int,
                            },
                            next,
                        ),
                    ));
                }
                p = (val_at + len).saturating_add(pad);
                if depth == 0 {
                    return Err(Error::BadTag);
                }
                let pname = match self.prop_name(nameoff) {
                    Ok(n) => n,
                    Err(e) => {
                        return Err(e);
                    },
                };
                let mut frame = stack[depth - 1];
                if let Match::Compatible(c) = want {
                    if bytes::bytes_equal(pname, "compatible".as_bytes()) {
                        let val = vstd::slice::slice_subrange(b, val_at, val_at + len);
                        // A compatible is a list of NUL-separated strings.
                        if lists(val, c.as_bytes()) {
                            frame.matched = true;
                        }
                    }
                }
                if bytes::bytes_equal(pname, prop.as_bytes()) {
                    frame.val = Some((val_at, len));
                }
                stack[depth - 1] = frame;
                proof {
                    assert(open.last() == open[depth - 1]);
                    let now = open.drop_last().push(frame);
                    assert(stack@.subrange(0, depth as int) =~= now);
                    if next > usize::MAX {
                        walk_ends(b@, k, want, prop.spec_bytes(), next, now);
                        walk_ends(b@, k, want, prop.spec_bytes(), p as int, now);
                    }
                }
            } else if tag == FDT_NOP {
            } else if tag == FDT_END {
                return Err(Error::NotFound);
            } else {
                return Err(Error::BadTag);
            }
        }
        proof {
            walk_ends(
                b@,
                k,
                want,
                prop.spec_bytes(),
                p as int,
                stack@.subrange(0, depth as int),
            );
        }
        Err(Error::NotFound)
    }

    /// The `len` bytes at `at`.
    pub fn prop_bytes(&self, at: usize, len: usize) -> (r: Result<&[u8], Error>)
        ensures
            at + len <= self.bytes().len() ==> r is Ok && r->Ok_0@ == self.bytes().subrange(
                at as int,
                at + len,
            ),
            at + len > self.bytes().len() ==> r is Err && r->Err_0 == Error::Truncated,
    {
        let b: &[u8] = &*self.blob;
        if at > b.len() || len > b.len() - at {
            return Err(Error::Truncated);
        }
        Ok(vstd::slice::slice_subrange(b, at, at + len))
    }

    /// Points `/memory` at the window, and at nothing else.
    ///
    /// The whole window goes in the first range and the others are emptied. The property keeps
    /// its length, so nothing in the tree moves.
    pub fn set_memory_window(&mut self, base: u64, size: u64) -> (r: Result<(), Error>)
        requires
            old(self).wf(),
        ensures
            final(self).wf(),
            final(self).blocks() == old(self).blocks(),
            final(final(self).blob)@ == final(old(self).blob)@,
            match find(
                old(self).bytes(),
                old(self).blocks(),
                Match::RootChild("memory"),
                "reg".spec_bytes(),
            ) {
                Err(e) => r == Err::<(), Error>(e) && final(self).bytes() == old(self).bytes(),
                Ok((at, len)) => if len < 16 || len % 16 != 0 {
                    r == Err::<(), Error>(Error::Truncated) && final(self).bytes() == old(
                        self,
                    ).bytes()
                } else {
                    r is Ok && at + len <= old(self).bytes().len() && final(self).bytes() == splice(
                        old(self).bytes(),
                        at as int,
                        window_reg(base, size, len as int),
                    )
                },
            },
    {
        let (at, len) = match self.find_prop(Match::RootChild("memory"), "reg") {
            Ok(hit) => hit,
            Err(e) => {
                return Err(e);
            },
        };
        proof {
            assert(self.blob.len() == self.bytes().len());
            walk_stays_inside(
                self.bytes(),
                self.blocks(),
                Match::RootChild("memory"),
                "reg".spec_bytes(),
                self.blocks().struct_off,
                Seq::empty(),
            );
        }
        if len < 16 || len % 16 != 0 {
            return Err(Error::Truncated);
        }
        let ghost b0 = self.bytes();
        assert(at + len <= self.blob.len());
        put_at(self.blob, at, base);
        put_at(self.blob, at + 8, size);
        proof {
            zero_bytes();
            assert(self.bytes() =~= splice(b0, at as int, window_reg(base, size, 16)));
        }
        let entries: usize = len / 16;
        let mut i: usize = 1;
        while i < entries
            invariant
                1 <= i <= entries,
                entries * 16 == len,
                at + len <= self.blob.len(),
                self.blocks() == old(self).blocks(),
                final(self.blob)@ == final(old(self).blob)@,
                self.bytes().len() == b0.len(),
                b0 == old(self).bytes(),
                self.bytes() == splice(b0, at as int, window_reg(base, size, i * 16)),
            decreases entries - i,
        {
            put_at(self.blob, at + i * 16, 0);
            put_at(self.blob, at + i * 16 + 8, 0);
            proof {
                zero_bytes();
                assert(self.bytes() =~= splice(b0, at as int, window_reg(base, size, (i + 1) * 16)));
            }
            i = i + 1;
        }
        Ok(())
    }
}

} // verus!
