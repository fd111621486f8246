//! What the search through a device tree means, and what overwriting a value leaves alone.

use vstd::prelude::*;
use vstd::string::*;

use crate::bytes;
use crate::fdt;
use crate::fdt::Blocks;
use crate::fdt::Error;
use crate::fdt::Frame;
use crate::fdt::Match;
use crate::fdt::Token;

verus! {

/// The first NUL is found where the bytes up to it are the same.
proof fn nul_from_agrees(b: Seq<u8>, c: Seq<u8>, at: int)
    requires
        b.len() == c.len(),
        fdt::nul_from(b, at) matches Some(e) ==> forall|j: int| at <= j <= e ==> b[j] == c[j],
        fdt::nul_from(b, at) is None ==> forall|j: int| at <= j < b.len() ==> b[j] == c[j],
    ensures
        fdt::nul_from(c, at) == fdt::nul_from(b, at),
        fdt::nul_from(b, at) matches Some(e) ==> at <= e < b.len(),
    decreases b.len() - at,
{
    if 0 <= at < b.len() {
        fdt::nul_from_step(b, at);
        if b[at] != 0 {
            nul_from_agrees(b, c, at + 1);
        }
    }
}

/// Two blobs that agree from `p` to `q`, where the element at `p` ends, have the same element
/// there.
proof fn token_agrees(b: Seq<u8>, c: Seq<u8>, end: int, p: int, q: int)
    requires
        b.len() == c.len(),
        end <= b.len(),
        0 <= p,
        fdt::token(b, end, p) matches Ok((t, next)) ==> (match t {
            Token::Prop { at, .. } => at <= q,
            _ => next <= q,
        }),
        fdt::token(b, end, p) is Err ==> q >= b.len(),
        forall|j: int| p <= j < q && j < b.len() ==> b[j] == c[j],
    ensures
        fdt::token(c, end, p) == fdt::token(b, end, p),
{
    if p + 4 <= b.len() {
        fdt::nul_from_step(b, p + 4);
        if fdt::cell(b, p) == fdt::FDT_BEGIN_NODE {
            if let Some(e) = fdt::nul_from(b, p + 4) {
                assert(p + 4 + fdt::round4(e - (p + 4) + 1) <= q);
                assert(e < q);
            }
        }
        assert(p + 4 <= q || q >= b.len());
        assert(b.subrange(p, p + 4) =~= c.subrange(p, p + 4));
        if fdt::cell(b, p) == fdt::FDT_BEGIN_NODE {
            nul_from_agrees(b, c, p + 4);
            if let Some(e) = fdt::nul_from(b, p + 4) {
                assert(b.subrange(p + 4, e) =~= c.subrange(p + 4, e));
            }
        } else if fdt::cell(b, p) == fdt::FDT_PROP && p + 12 <= b.len() {
            assert(p + 12 <= q || q >= b.len());
            assert(b.subrange(p + 4, p + 8) =~= c.subrange(p + 4, p + 8));
            assert(b.subrange(p + 8, p + 12) =~= c.subrange(p + 8, p + 12));
        }
    }
}

/// The walk from `p` reads nothing before `p` but the property names.
proof fn walk_agrees_behind(
    b: Seq<u8>,
    c: Seq<u8>,
    k: Blocks,
    want: Match,
    prop: Seq<u8>,
    p: int,
    stack: Seq<Frame>,
)
    requires
        b.len() == c.len(),
        k.fit(b.len() as int),
        0 <= p,
        b.subrange(k.strings_off, k.strings_off + k.strings_len) == c.subrange(
            k.strings_off,
            k.strings_off + k.strings_len,
        ),
        forall|j: int| p <= j < b.len() ==> b[j] == c[j],
    ensures
        fdt::walk(c, k, want, prop, p, stack) == fdt::walk(b, k, want, prop, p, stack),
    decreases
            (if p < k.end() {
                k.end() - p
            } else {
                0
            }),
{
    reveal_with_fuel(fdt::walk, 1);
    if p < k.end() {
        if let Ok((t, next)) = fdt::token(b, k.end(), p) {
            token_agrees(
                b,
                c,
                k.end(),
                p,
                if next > b.len() {
                    next
                } else {
                    b.len() as int
                },
            );
            if next > p {
                match t {
                    Token::Begin { name } => {
                        let f = Frame {
                            val: None,
                            matched: want.by_name(stack.len() as int, name),
                        };
                        walk_agrees_behind(b, c, k, want, prop, next, stack.push(f));
                    },
                    Token::End => {
                        walk_agrees_behind(b, c, k, want, prop, next, stack.drop_last());
                    },
                    Token::Prop { at, len, nameoff } => {
                        assert(b.subrange(at, at + len) =~= c.subrange(at, at + len));
                        if let Some(name) = fdt::name_at(b, k, nameoff) {
                            let f = fdt::with_prop(stack.last(), want, prop, b, name, at, len);
                            walk_agrees_behind(
                                b,
                                c,
                                k,
                                want,
                                prop,
                                next,
                                stack.drop_last().push(f),
                            );
                        }
                    },
                    Token::Nop => {
                        walk_agrees_behind(b, c, k, want, prop, next, stack);
                    },
                    Token::Stop => {},
                }
            }
        } else {
            token_agrees(b, c, k.end(), p, b.len() as int);
        }
    }
}

/// The walk to a value that is still ahead does not read the value.
proof fn walk_agrees_around(
    b: Seq<u8>,
    c: Seq<u8>,
    k: Blocks,
    n: &str,
    prop: Seq<u8>,
    p: int,
    stack: Seq<Frame>,
    at: usize,
    len: usize,
)
    requires
        b.len() == c.len(),
        b.len() <= usize::MAX,
        k.fit(b.len() as int),
        0 <= p,
        b.subrange(k.strings_off, k.strings_off + k.strings_len) == c.subrange(
            k.strings_off,
            k.strings_off + k.strings_len,
        ),
        forall|j: int| 0 <= j < b.len() && !(at <= j < at + len) ==> b[j] == c[j],
        fdt::values_before(stack, p),
        fdt::values_before(stack, k.end()),
        forall|i: int|
            0 <= i < stack.len() ==> (#[trigger] stack[i]).val != Some((at, len)),
        fdt::walk(b, k, Match::RootChild(n), prop, p, stack) == Ok::<(usize, usize), Error>((at, len)),
    ensures
        fdt::walk(c, k, Match::RootChild(n), prop, p, stack) == Ok::<(usize, usize), Error>((at, len)),
    decreases
            (if p < k.end() {
                k.end() - p
            } else {
                0
            }),
{
    reveal_with_fuel(fdt::walk, 1);
    let want = Match::RootChild(n);
    fdt::walk_stays_inside(b, k, want, prop, p, stack);
    let (t, next) = fdt::token(b, k.end(), p)->Ok_0;
    fdt::nul_from_step(b, p + 4);
    match t {
        Token::Begin { name } => {
            let f = Frame { val: None, matched: want.by_name(stack.len() as int, name) };
            let now = stack.push(f);
            fdt::walk_stays_inside(b, k, want, prop, next, now);
            token_agrees(b, c, k.end(), p, next);
            walk_agrees_around(b, c, k, n, prop, next, now, at, len);
        },
        Token::End => {
            let now = stack.drop_last();
            if stack.last().matched && stack.last().val is Some {
                assert(stack[stack.len() - 1].val == Some((at, len)));
            } else {
                fdt::walk_stays_inside(b, k, want, prop, next, now);
                token_agrees(b, c, k.end(), p, next);
                walk_agrees_around(b, c, k, n, prop, next, now, at, len);
            }
        },
        Token::Prop { at: a, len: l, nameoff } => {
            let name = fdt::name_at(b, k, nameoff)->0;
            let f = fdt::with_prop(stack.last(), want, prop, b, name, a, l);
            let now = stack.drop_last().push(f);
            assert(stack[stack.len() - 1] == stack.last());
            fdt::walk_stays_inside(b, k, want, prop, next, now);
            assert(a <= at);
            token_agrees(b, c, k.end(), p, a);
            if f.val == Some((at, len)) {
                walk_agrees_behind(b, c, k, want, prop, next, now);
            } else {
                walk_agrees_around(b, c, k, n, prop, next, now, at, len);
            }
        },
        Token::Nop => {
            fdt::walk_stays_inside(b, k, want, prop, next, stack);
            token_agrees(b, c, k.end(), p, next);
            walk_agrees_around(b, c, k, n, prop, next, stack, at, len);
        },
        Token::Stop => {},
    }
}

/// Overwriting a property's value in place keeps the property where it is: the same search finds
/// the same place and length, and the new value in it. The one exception is a tree whose property
/// names overlap the value, so that the write changes them.
pub proof fn overwriting_a_value_moves_nothing(
    b: Seq<u8>,
    k: Blocks,
    n: &str,
    prop: Seq<u8>,
    s: Seq<u8>,
)
    requires
        b.len() <= usize::MAX,
        k.fit(b.len() as int),
        fdt::find(b, k, Match::RootChild(n), prop) matches Ok((at, len)) && s.len() == len && {
            let c = fdt::splice(b, at as int, s);
            c.subrange(k.strings_off, k.strings_off + k.strings_len) == b.subrange(
                k.strings_off,
                k.strings_off + k.strings_len,
            )
        },
    ensures
        fdt::find(b, k, Match::RootChild(n), prop) matches Ok((at, len)) && {
            let c = fdt::splice(b, at as int, s);
            &&& at + len <= b.len()
            &&& fdt::find(c, k, Match::RootChild(n), prop) == Ok::<(usize, usize), Error>((at, len))
            &&& c.subrange(at as int, at + len) == s
        },
{
    let (at, len) = fdt::find(b, k, Match::RootChild(n), prop)->Ok_0;
    let c = fdt::splice(b, at as int, s);
    fdt::walk_stays_inside(b, k, Match::RootChild(n), prop, k.struct_off, Seq::empty());
    walk_agrees_around(b, c, k, n, prop, k.struct_off, Seq::empty(), at, len);
    assert(c.subrange(at as int, at + len) =~= s);
}

/// The elements of the structure block from `p` up to where it stops or goes wrong.
pub open spec fn tokens(b: Seq<u8>, end: int, p: int) -> Seq<Token>
    decreases
            (if p < end {
                end - p
            } else {
                0
            }),
{
    if p >= end {
        Seq::empty()
    } else {
        match fdt::token(b, end, p) {
            Err(_) => Seq::empty(),
            Ok((t, next)) => if next <= p || t is Stop {
                Seq::empty()
            } else {
                seq![t] + tokens(b, end, next)
            },
        }
    }
}

/// How many nodes are open before element `i`.
pub open spec fn level(ts: Seq<Token>, i: int) -> int
    decreases i,
{
    if i <= 0 {
        0
    } else {
        level(ts, i - 1) + (match ts[i - 1] {
            Token::Begin { .. } => 1int,
            Token::End => -1int,
            _ => 0int,
        })
    }
}

/// A node opens at element `i` and is still open before element `n`.
pub open spec fn inside(ts: Seq<Token>, i: int, n: int) -> bool {
    &&& 0 <= i < n <= ts.len()
    &&& ts[i] is Begin
    &&& forall|m: int| i < m <= n ==> #[trigger] level(ts, m) > level(ts, i)
}

/// A node opens at element `i` and closes at element `j`.
pub open spec fn is_node(ts: Seq<Token>, i: int, j: int) -> bool {
    &&& inside(ts, i, j)
    &&& j < ts.len()
    &&& ts[j] is End
    &&& level(ts, j) == level(ts, i) + 1
}

/// Element `m`, before `n`, is a property called `name` of the node that opens at `i`.
pub open spec fn own_prop(
    b: Seq<u8>,
    k: Blocks,
    ts: Seq<Token>,
    i: int,
    n: int,
    m: int,
    name: Seq<u8>,
) -> bool {
    &&& i < m < n
    &&& level(ts, m) == level(ts, i) + 1
    &&& ts[m] matches Token::Prop { nameoff, .. } && fdt::name_at(b, k, nameoff) == Some(name)
}

/// Element `m` makes the node that opens at `i` one that `want` picks out.
pub open spec fn picked_by(
    b: Seq<u8>,
    k: Blocks,
    want: Match,
    ts: Seq<Token>,
    i: int,
    n: int,
    m: int,
) -> bool {
    &&& own_prop(b, k, ts, i, n, m, "compatible".spec_bytes())
    &&& ts[m] matches Token::Prop { at, len, .. } && want.by_prop(
        "compatible".spec_bytes(),
        b.subrange(at, at + len),
    )
}

/// By its name, or by what it says of itself before element `n`, the node that opens at `i` is
/// one that `want` picks out.
pub open spec fn picked(
    b: Seq<u8>,
    k: Blocks,
    want: Match,
    ts: Seq<Token>,
    i: int,
    n: int,
) -> bool {
    ||| ts[i] matches Token::Begin { name } && want.by_name(level(ts, i), name)
    ||| exists|m: int| picked_by(b, k, want, ts, i, n, m)
}

/// The last property called `prop` of the node that opens at `i`, before element `n`, has its
/// value at `at`.
pub open spec fn last_value(
    b: Seq<u8>,
    k: Blocks,
    prop: Seq<u8>,
    ts: Seq<Token>,
    i: int,
    n: int,
    at: int,
    len: int,
) -> bool {
    exists|m: int| #[trigger]
        own_prop(b, k, ts, i, n, m, prop) && (ts[m] matches Token::Prop { at: a, len: l, .. } && a
            == at && l == len) && forall|later: int|
            m < later ==> !own_prop(b, k, ts, i, n, later, prop)
}

/// The node from `i` to `j` is picked out and has a property called `prop`.
pub open spec fn qualifies(
    b: Seq<u8>,
    k: Blocks,
    want: Match,
    prop: Seq<u8>,
    ts: Seq<Token>,
    i: int,
    j: int,
) -> bool {
    &&& is_node(ts, i, j)
    &&& picked(b, k, want, ts, i, j)
    &&& exists|m: int| own_prop(b, k, ts, i, j, m, prop)
}

/// What frame `f` says of the node that opens at `o`, before element `n`.
spec fn frame_true(
    b: Seq<u8>,
    k: Blocks,
    want: Match,
    prop: Seq<u8>,
    ts: Seq<Token>,
    n: int,
    o: int,
    f: Frame,
) -> bool {
    &&& inside(ts, o, n)
    &&& f.matched == picked(b, k, want, ts, o, n)
    &&& f.val matches Some((at, len)) ==> last_value(
        b,
        k,
        prop,
        ts,
        o,
        n,
        at as int,
        len as int,
    )
    &&& f.val is None ==> forall|m: int| !own_prop(b, k, ts, o, n, m, prop)
}

/// What the stack says is true before element `n`, with `opens` for where its nodes open.
spec fn stack_true(
    b: Seq<u8>,
    k: Blocks,
    want: Match,
    prop: Seq<u8>,
    ts: Seq<Token>,
    n: int,
    opens: Seq<int>,
    stack: Seq<Frame>,
) -> bool {
    &&& opens.len() == stack.len()
    &&& 0 <= n <= ts.len()
    &&& level(ts, n) == stack.len()
    &&& forall|d: int|
        0 <= d < opens.len() ==> level(ts, #[trigger] opens[d]) == d && frame_true(
            b,
            k,
            want,
            prop,
            ts,
            n,
            opens[d],
            stack[d],
        )
}

/// Element `n` that is no property of the node leaves what its frame says true.
proof fn frame_survives(
    b: Seq<u8>,
    k: Blocks,
    want: Match,
    prop: Seq<u8>,
    ts: Seq<Token>,
    n: int,
    o: int,
    f: Frame,
)
    requires
        frame_true(b, k, want, prop, ts, n, o, f),
        n < ts.len(),
        level(ts, n + 1) > level(ts, o),
        !(ts[n] is Prop) || level(ts, n) != level(ts, o) + 1,
    ensures
        frame_true(b, k, want, prop, ts, n + 1, o, f),
{
    let n2 = n + 1;
    assert forall|m: int, name: Seq<u8>|
        #[trigger] own_prop(b, k, ts, o, n2, m, name) == own_prop(b, k, ts, o, n, m, name) by {}
    assert forall|m: int|
        #[trigger] picked_by(b, k, want, ts, o, n2, m) == picked_by(
            b,
            k,
            want,
            ts,
            o,
            n,
            m,
        ) by {}
    assert(picked(b, k, want, ts, o, n2) == picked(b, k, want, ts, o, n)) by {
        if exists|m: int| picked_by(b, k, want, ts, o, n, m) {
            let m = choose|m: int| picked_by(b, k, want, ts, o, n, m);
            assert(picked_by(b, k, want, ts, o, n2, m));
        }
        if exists|m: int| picked_by(b, k, want, ts, o, n2, m) {
            let m = choose|m: int| picked_by(b, k, want, ts, o, n2, m);
            assert(picked_by(b, k, want, ts, o, n, m));
        }
    }
    if let Some((at, len)) = f.val {
        let m = choose|m: int| #[trigger]
            own_prop(b, k, ts, o, n, m, prop) && (ts[m] matches Token::Prop { at: a, len: l, .. }
                && a == at && l == len) && forall|later: int|
                m < later ==> !own_prop(b, k, ts, o, n, later, prop);
        assert(own_prop(b, k, ts, o, n2, m, prop));
    }
}

/// A property updates the frame of the node that has it.
proof fn frame_updates(
    b: Seq<u8>,
    k: Blocks,
    want: Match,
    prop: Seq<u8>,
    ts: Seq<Token>,
    n: int,
    o: int,
    f: Frame,
    name: Seq<u8>,
)
    requires
        frame_true(b, k, want, prop, ts, n, o, f),
        n < ts.len(),
        level(ts, n) == level(ts, o) + 1,
        ts[n] matches Token::Prop { at, len, nameoff } && fdt::name_at(b, k, nameoff) == Some(name) && 0
            <= at <= usize::MAX && 0 <= len <= usize::MAX,
    ensures
        ts[n] matches Token::Prop { at, len, .. } && frame_true(
            b,
            k,
            want,
            prop,
            ts,
            n + 1,
            o,
            fdt::with_prop(f, want, prop, b, name, at, len),
        ),
{
    let n2 = n + 1;
    let (a, l) = (ts[n]->at, ts[n]->len);
    let f2 = fdt::with_prop(f, want, prop, b, name, a, l);
    assert forall|m: int, nm: Seq<u8>| #[trigger]
        own_prop(b, k, ts, o, n2, m, nm) == (own_prop(b, k, ts, o, n, m, nm) || (m == n && nm
            == name)) by {}
    assert(f2.matched == picked(b, k, want, ts, o, n2)) by {
        if exists|m: int| picked_by(b, k, want, ts, o, n, m) {
            let m = choose|m: int| picked_by(b, k, want, ts, o, n, m);
            assert(own_prop(b, k, ts, o, n, m, "compatible".spec_bytes()));
            assert(picked_by(b, k, want, ts, o, n2, m));
        }
        if want.by_prop(name, b.subrange(a, a + l)) {
            assert(own_prop(b, k, ts, o, n2, n, name));
            assert(picked_by(b, k, want, ts, o, n2, n));
        }
        if exists|m: int| picked_by(b, k, want, ts, o, n2, m) {
            let m = choose|m: int| picked_by(b, k, want, ts, o, n2, m);
            assert(own_prop(b, k, ts, o, n2, m, "compatible".spec_bytes()));
            if m != n {
                assert(picked_by(b, k, want, ts, o, n, m));
            }
        }
    }
    if name == prop {
        assert(own_prop(b, k, ts, o, n2, n, prop));
    } else if let Some((at, len)) = f.val {
        let m = choose|m: int| #[trigger]
            own_prop(b, k, ts, o, n, m, prop) && (ts[m] matches Token::Prop { at: x, len: y, .. }
                && x == at && y == len) && forall|later: int|
                m < later ==> !own_prop(b, k, ts, o, n, later, prop);
        assert(own_prop(b, k, ts, o, n2, m, prop));
    }
}

/// Only one node closes at a given element.
proof fn node_is_unique(ts: Seq<Token>, i: int, other: int, j: int)
    requires
        is_node(ts, i, j),
        is_node(ts, other, j),
    ensures
        i == other,
{
    if i < other {
        assert(level(ts, other) > level(ts, i));
    } else if other < i {
        assert(level(ts, i) > level(ts, other));
    }
}

/// The walk agrees with what the elements ahead say.
proof fn walk_is_about_nodes(
    b: Seq<u8>,
    k: Blocks,
    want: Match,
    prop: Seq<u8>,
    p: int,
    stack: Seq<Frame>,
    ts: Seq<Token>,
    n: int,
    opens: Seq<int>,
)
    requires
        0 <= p,
        b.len() <= usize::MAX,
        k.fit(b.len() as int),
        stack_true(b, k, want, prop, ts, n, opens, stack),
        ts.skip(n) == tokens(b, k.end(), p),
        forall|i: int, j: int| j < n ==> !qualifies(b, k, want, prop, ts, i, j),
    ensures
        match fdt::walk(b, k, want, prop, p, stack) {
            Ok((at, len)) => exists|i: int, j: int| #[trigger]
                qualifies(b, k, want, prop, ts, i, j) && last_value(
                    b,
                    k,
                    prop,
                    ts,
                    i,
                    j,
                    at as int,
                    len as int,
                ) && forall|x: int, y: int| y < j ==> !qualifies(b, k, want, prop, ts, x, y),
            Err(Error::NotFound) => forall|i: int, j: int|
                !qualifies(b, k, want, prop, ts, i, j),
            Err(_) => true,
        },
    decreases
            (if p < k.end() {
                k.end() - p
            } else {
                0
            }),
{
    reveal_with_fuel(fdt::walk, 1);
    let n2 = n + 1;
    if p < k.end() {
        if let Ok((t, next)) = fdt::token(b, k.end(), p) {
            fdt::nul_from_step(b, p + 4);
            if next > p && !(t is Stop) {
                assert(ts.skip(n).len() > 0);
                assert(ts.skip(n)[0] == t);
                assert(ts[n] == t);
                assert(ts.skip(n2) =~= ts.skip(n).skip(1));
                assert(tokens(b, k.end(), p).skip(1) =~= tokens(b, k.end(), next));
                if !(t is End) {
                    assert forall|i: int, j: int| j < n2 implies !qualifies(
                        b,
                        k,
                        want,
                        prop,
                        ts,
                        i,
                        j,
                    ) by {}
                }
                match t {
                    Token::Begin { name } => {
                        if stack.len() < fdt::MAX_DEPTH {
                            let f = Frame {
                                val: None,
                                matched: want.by_name(stack.len() as int, name),
                            };
                            assert forall|d: int| 0 <= d < opens.len() implies frame_true(
                                b,
                                k,
                                want,
                                prop,
                                ts,
                                n2,
                                opens[d],
                                stack[d],
                            ) by {
                                frame_survives(b, k, want, prop, ts, n, opens[d], stack[d]);
                            }
                            assert(frame_true(b, k, want, prop, ts, n2, n, f)) by {
                                assert forall|m: int| !own_prop(
                                    b,
                                    k,
                                    ts,
                                    n,
                                    n2,
                                    m,
                                    prop,
                                ) by {}
                                assert forall|m: int| !picked_by(
                                    b,
                                    k,
                                    want,
                                    ts,
                                    n,
                                    n2,
                                    m,
                                ) by {}
                            }
                            let opens2 = opens.push(n);
                            let stack2 = stack.push(f);
                            assert(stack_true(b, k, want, prop, ts, n2, opens2, stack2));
                            walk_is_about_nodes(
                                b,
                                k,
                                want,
                                prop,
                                next,
                                stack2,
                                ts,
                                n2,
                                opens2,
                            );
                        }
                    },
                    Token::End => {
                        if stack.len() > 0 {
                            let d = stack.len() - 1;
                            let o = opens[d];
                            let f = stack[d];
                            assert(stack.last() == f);
                            assert(is_node(ts, o, n));
                            assert forall|i: int, j: int|
                                j < n2 && (i != o || j != n) implies !qualifies(
                                b,
                                k,
                                want,
                                prop,
                                ts,
                                i,
                                j,
                            ) by {
                                if j == n && qualifies(b, k, want, prop, ts, i, j) {
                                    node_is_unique(ts, i, o, n);
                                }
                            }
                            if f.matched && f.val is Some {
                                let m = choose|m: int| own_prop(b, k, ts, o, n, m, prop);
                                assert(own_prop(b, k, ts, o, n, m, prop));
                                assert(qualifies(b, k, want, prop, ts, o, n));
                            } else {
                                let opens2 = opens.drop_last();
                                let stack2 = stack.drop_last();
                                assert forall|e: int| 0 <= e < opens2.len() implies frame_true(
                                    b,
                                    k,
                                    want,
                                    prop,
                                    ts,
                                    n2,
                                    opens2[e],
                                    stack2[e],
                                ) by {
                                    frame_survives(b, k, want, prop, ts, n, opens[e], stack[e]);
                                }
                                assert(stack_true(b, k, want, prop, ts, n2, opens2, stack2));
                                walk_is_about_nodes(
                                    b,
                                    k,
                                    want,
                                    prop,
                                    next,
                                    stack2,
                                    ts,
                                    n2,
                                    opens2,
                                );
                            }
                        }
                    },
                    Token::Prop { at, len, nameoff } => {
                        if stack.len() > 0 {
                            if let Some(name) = fdt::name_at(b, k, nameoff) {
                                let d = stack.len() - 1;
                                let f = fdt::with_prop(stack.last(), want, prop, b, name, at, len);
                                let stack2 = stack.drop_last().push(f);
                                assert forall|e: int| 0 <= e < opens.len() implies frame_true(
                                    b,
                                    k,
                                    want,
                                    prop,
                                    ts,
                                    n2,
                                    opens[e],
                                    stack2[e],
                                ) by {
                                    if e == d {
                                        frame_updates(
                                            b,
                                            k,
                                            want,
                                            prop,
                                            ts,
                                            n,
                                            opens[d],
                                            stack[d],
                                            name,
                                        );
                                    } else {
                                        frame_survives(b, k, want, prop, ts, n, opens[e], stack[e]);
                                    }
                                }
                                assert(stack_true(b, k, want, prop, ts, n2, opens, stack2));
                                walk_is_about_nodes(
                                    b,
                                    k,
                                    want,
                                    prop,
                                    next,
                                    stack2,
                                    ts,
                                    n2,
                                    opens,
                                );
                            }
                        }
                    },
                    Token::Nop => {
                        assert forall|d: int| 0 <= d < opens.len() implies frame_true(
                            b,
                            k,
                            want,
                            prop,
                            ts,
                            n2,
                            opens[d],
                            stack[d],
                        ) by {
                            frame_survives(b, k, want, prop, ts, n, opens[d], stack[d]);
                        }
                        assert(stack_true(b, k, want, prop, ts, n2, opens, stack));
                        walk_is_about_nodes(b, k, want, prop, next, stack, ts, n2, opens);
                    },
                    Token::Stop => {},
                }
            } else {
                assert(ts.skip(n).len() == 0);
            }
        }
    } else {
        assert(ts.skip(n).len() == 0);
    }
}

/// A value that the search gives is the last one of that name in a node that is picked out, and
/// no node that closes before it is picked out and has such a property. Where the search says
/// that there is none, no node of the tree is picked out and has such a property.
pub proof fn find_picks_the_first_node_to_close(
    b: Seq<u8>,
    k: Blocks,
    want: Match,
    prop: Seq<u8>,
)
    requires
        b.len() <= usize::MAX,
        k.fit(b.len() as int),
    ensures
        match fdt::find(b, k, want, prop) {
            Ok((at, len)) => {
                let ts = tokens(b, k.end(), k.struct_off);
                exists|i: int, j: int| #[trigger]
                    qualifies(b, k, want, prop, ts, i, j) && last_value(
                        b,
                        k,
                        prop,
                        ts,
                        i,
                        j,
                        at as int,
                        len as int,
                    ) && forall|x: int, y: int| y < j ==> !qualifies(b, k, want, prop, ts, x, y)
            },
            Err(Error::NotFound) => {
                let ts = tokens(b, k.end(), k.struct_off);
                forall|i: int, j: int| !qualifies(b, k, want, prop, ts, i, j)
            },
            Err(_) => true,
        },
{
    let ts = tokens(b, k.end(), k.struct_off);
    assert(ts.skip(0) =~= ts);
    walk_is_about_nodes(b, k, want, prop, k.struct_off, Seq::empty(), ts, 0, Seq::empty());
}

/// Reading back what was written gives the number, and nothing behind it has changed.
pub proof fn put_then_get(b: Seq<u8>, v: u64)
    requires
        b.len() >= 8,
    ensures
        ({
            let c = fdt::splice(b, 0, bytes::be_bytes(v as nat, 8));
            &&& bytes::be_value(c.subrange(0, 8)) == v
            &&& c.len() == b.len()
            &&& c.subrange(8, b.len() as int) == b.subrange(8, b.len() as int)
        }),
{
    bytes::byte_pow_values();
    bytes::be_round_trip(v as nat, 8);
    let c = fdt::splice(b, 0, bytes::be_bytes(v as nat, 8));
    assert(c.subrange(0, 8) =~= bytes::be_bytes(v as nat, 8));
    assert(c.subrange(8, b.len() as int) =~= b.subrange(8, b.len() as int));
}

/// In a `reg` that describes the window, the first range is the window and every other range is
/// empty.
pub proof fn only_the_window_is_memory(base: u64, size: u64, len: int, i: int)
    requires
        16 <= len,
        len % 16 == 0,
        0 <= i < len / 16,
    ensures
        ({
            let reg = fdt::window_reg(base, size, len);
            &&& reg.len() == len
            &&& bytes::be_value(reg.subrange(i * 16, i * 16 + 8)) == (if i == 0 {
                base as nat
            } else {
                0
            })
            &&& bytes::be_value(reg.subrange(i * 16 + 8, i * 16 + 16)) == (if i == 0 {
                size as nat
            } else {
                0
            })
        }),
{
    let reg = fdt::window_reg(base, size, len);
    bytes::byte_pow_values();
    bytes::be_round_trip(base as nat, 8);
    bytes::be_round_trip(size as nat, 8);
    bytes::be_round_trip(0, 8);
    reveal_with_fuel(bytes::be_bytes, 9);
    if i == 0 {
        assert(reg.subrange(0, 8) =~= bytes::be_bytes(base as nat, 8));
        assert(reg.subrange(8, 16) =~= bytes::be_bytes(size as nat, 8));
    } else {
        assert(reg.subrange(i * 16, i * 16 + 8) =~= bytes::be_bytes(0, 8));
        assert(reg.subrange(i * 16 + 8, i * 16 + 16) =~= bytes::be_bytes(0, 8));
    }
}

/// A header says where the two blocks are: each number has its high byte first, and the blocks have to
/// lie inside the blob.
pub proof fn headers_are_understood(b: Seq<u8>)
    requires
        b.len() >= 40,
    ensures
        ({
            let number = |at: int|
                b[at] * 0x100_0000 + b[at + 1] * 0x1_0000 + b[at + 2] * 0x100 + b[at + 3];
            let k = Blocks {
                struct_off: number(8),
                struct_len: number(36),
                strings_off: number(12),
                strings_len: number(32),
            };
            let tree = number(0) == 0xd00d_feed;
            let inside = number(8) + number(36) <= b.len() && number(12) + number(32) <= b.len();
            &&& fdt::open_result(b) == Ok::<Blocks, Error>(k) <==> tree && inside
            &&& !tree ==> fdt::open_result(b) == Err::<Blocks, Error>(Error::BadMagic)
            &&& tree && !inside ==> fdt::open_result(b) == Err::<Blocks, Error>(Error::Truncated)
        }),
{
    bytes::be_value_4(b.subrange(0, 4));
    bytes::be_value_4(b.subrange(8, 12));
    bytes::be_value_4(b.subrange(12, 16));
    bytes::be_value_4(b.subrange(32, 36));
    bytes::be_value_4(b.subrange(36, 40));
}

/// The bytes of an element: its kind, what it holds, and zeros up to a multiple of four.
pub open spec fn element(t: Token, value: Seq<u8>) -> Seq<u8> {
    match t {
        Token::Begin { name } => bytes::be_bytes(1, 4) + name + zeros(4 - name.len() as int % 4),
        Token::End => bytes::be_bytes(2, 4),
        Token::Prop { at, len, nameoff } => bytes::be_bytes(3, 4) + bytes::be_bytes(len as nat, 4)
            + bytes::be_bytes(nameoff as nat, 4) + value + zeros((4 - len % 4) % 4),
        Token::Nop => bytes::be_bytes(4, 4),
        Token::Stop => bytes::be_bytes(9, 4),
    }
}

/// So many zeros.
pub open spec fn zeros(n: int) -> Seq<u8> {
    Seq::new(n as nat, |i: int| 0u8)
}

/// The first zero behind a name is right behind it.
proof fn names_end_at_the_zero(b: Seq<u8>, at: int, len: int)
    requires
        0 <= at,
        0 <= len,
        at + len < b.len(),
        b[at + len] == 0,
        forall|i: int| at <= i < at + len ==> b[i] != 0,
    ensures
        fdt::nul_from(b, at) == Some(at + len),
    decreases len,
{
    if len > 0 {
        names_end_at_the_zero(b, at + 1, len - 1);
    }
}

/// An element is read back from its bytes, whatever is before and behind them, and the next one is
/// right behind it.
pub proof fn elements_read_back(t: Token, value: Seq<u8>, before: Seq<u8>, behind: Seq<u8>, end: int)
    requires
        t matches Token::Begin { name } ==> !name.contains(0u8),
        t matches Token::Prop { at, len, nameoff } ==> at == before.len() + 12 && len == value.len()
            && 0 <= len < 0x1_0000_0000 && 0 <= nameoff < 0x1_0000_0000,
        before.len() + element(t, value).len() <= end,
    ensures
        fdt::token(before + element(t, value) + behind, end, before.len() as int) == Ok::<
            (Token, int),
            Error,
        >((t, before.len() as int + element(t, value).len())),
{
    let b = before + element(t, value) + behind;
    let p = before.len() as int;
    let e = element(t, value);
    bytes::byte_pow_values();
    assert forall|v: nat, n: nat| (#[trigger] bytes::be_bytes(v, n)).len() == n by {
        bytes::be_bytes_len(v, n);
    }
    bytes::be_round_trip(1, 4);
    bytes::be_round_trip(2, 4);
    bytes::be_round_trip(3, 4);
    bytes::be_round_trip(4, 4);
    bytes::be_round_trip(9, 4);
    let tag = b.subrange(p, p + 4);
    assert(tag =~= e.take(4));
    match t {
        Token::Begin { name } => {
            assert(tag =~= bytes::be_bytes(1, 4));
            let pad = zeros(4 - name.len() as int % 4);
            assert forall|i: int| p + 4 <= i < p + 4 + name.len() implies b[i] != 0 by {
                assert(b[i] == name[i - p - 4]);
                assert(name.contains(name[i - p - 4]));
            }
            assert(pad.len() >= 1);
            assert(b[p + 4 + name.len()] == pad[0]);
            names_end_at_the_zero(b, p + 4, name.len() as int);
            assert(b.subrange(p + 4, p + 4 + name.len()) =~= name);
            assert(fdt::round4(name.len() as int + 1) == name.len() + pad.len());
        },
        Token::End => {
            assert(tag =~= bytes::be_bytes(2, 4));
        },
        Token::Prop { at, len, nameoff } => {
            bytes::be_round_trip(len as nat, 4);
            bytes::be_round_trip(nameoff as nat, 4);
            assert(tag =~= bytes::be_bytes(3, 4));
            assert(b.subrange(p + 4, p + 8) =~= bytes::be_bytes(len as nat, 4));
            assert(b.subrange(p + 8, p + 12) =~= bytes::be_bytes(nameoff as nat, 4));
            assert(fdt::round4(len) == len + (4 - len % 4) % 4);
        },
        Token::Nop => {
            assert(tag =~= bytes::be_bytes(4, 4));
        },
        Token::Stop => {
            assert(tag =~= bytes::be_bytes(9, 4));
        },
    }
}

/// A name is picked among the children of the root, and nowhere else; a string is found in a list
/// wherever it stands there, and only as a whole.
pub proof fn nodes_are_picked_by_what_they_are(
    n: &str,
    depth: int,
    name: Seq<u8>,
    c: &str,
    first: Seq<u8>,
    last: Seq<u8>,
)
    requires
        !c.spec_bytes().contains(0u8),
    ensures
        Match::RootChild(n).by_name(depth, name) <==> depth == 1 && name == n.spec_bytes(),
        !Match::RootChild(n).by_prop(name, first),
        !Match::Compatible(c).by_name(depth, name),
        Match::Compatible(c).by_prop(name, first) ==> name == "compatible".spec_bytes(),
        ({
            let key = "compatible".spec_bytes();
            let x = c.spec_bytes();
            &&& Match::Compatible(c).by_prop(key, x)
            &&& Match::Compatible(c).by_prop(key, x + seq![0u8] + last)
            &&& Match::Compatible(c).by_prop(key, first + seq![0u8] + x)
            &&& Match::Compatible(c).by_prop(key, first + seq![0u8] + x + seq![0u8] + last)
            &&& !first.contains(0u8) && Match::Compatible(c).by_prop(key, first) ==> first == x
        }),
{
    let x = c.spec_bytes();
    let a = x + seq![0u8] + last;
    let b = first + seq![0u8] + x;
    let d = first + seq![0u8] + x + seq![0u8] + last;
    let at = first.len() as int + 1;
    assert(x.subrange(0, x.len() as int) =~= x);
    assert(fdt::listed_at(x, x, 0));
    assert(a.subrange(0, x.len() as int) =~= x);
    assert(fdt::listed_at(a, x, 0));
    assert(b.subrange(at, at + x.len()) =~= x);
    assert(fdt::listed_at(b, x, at));
    assert(d.subrange(at, at + x.len()) =~= x);
    assert(fdt::listed_at(d, x, at));
    if !first.contains(0u8) && fdt::listed(first, x) {
        let i = choose|i: int| fdt::listed_at(first, x, i);
        if i > 0 {
            assert(first.contains(first[i - 1]));
        }
        if i + x.len() < first.len() {
            assert(first.contains(first[i + x.len()]));
        }
        assert(first.subrange(0, first.len() as int) =~= first);
    }
}

/// A tree may be 24 nodes deep, and no deeper.
pub proof fn trees_may_be_24_deep(
    b: Seq<u8>,
    k: Blocks,
    want: Match,
    prop: Seq<u8>,
    p: int,
    next: int,
    name: Seq<u8>,
    stack: Seq<Frame>,
)
    requires
        p < k.end(),
        p < next,
        fdt::token(b, k.end(), p) == Ok::<(Token, int), Error>((Token::Begin { name }, next)),
    ensures
        stack.len() >= 24 ==> fdt::walk(b, k, want, prop, p, stack) == Err::<(usize, usize), Error>(
            Error::TooDeep,
        ),
        stack.len() < 24 ==> exists|f: Frame|
            fdt::walk(b, k, want, prop, p, stack) == #[trigger] fdt::walk(
                b,
                k,
                want,
                prop,
                next,
                stack.push(f),
            ),
{
    reveal(fdt::walk);
    if stack.len() < 24 {
        let f = Frame { val: None, matched: want.by_name(stack.len() as int, name) };
        assert(fdt::walk(b, k, want, prop, p, stack) == fdt::walk(
            b,
            k,
            want,
            prop,
            next,
            stack.push(f),
        ));
    }
}

} // verus!
