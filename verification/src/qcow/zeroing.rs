//! Filling a range with zeroes: its bytes are zero from then on, and no other byte changes.

use vstd::arithmetic::div_mod::*;
use vstd::prelude::*;

use crate::qcow;
use crate::qcow::contents;
use crate::qcow::geometry;
use crate::qcow::requests;
use crate::qcow::requests::ZeroStep;
use crate::qcow::transfers;
use crate::qcow::transfers::Image;

verus! {

/// So many zero bytes.
pub open spec fn zeroes(n: int) -> Seq<u8> {
    Seq::new(n as nat, |i: int| 0u8)
}

/// What was stored for the cluster of an address was given up. The storage of a cluster of the file
/// that held its data may be gone.
pub open spec fn gave_up(s: Image, t: Image, a: u64) -> bool {
    if s.m.drop_plan(a) is Nothing {
        t == s
    } else {
        &&& s.m.covers(a)
        &&& s.m.cached().contains_key(s.m.i(a))
        &&& t.m.wf()
        &&& contents::same_shape(s.m, t.m)
        &&& t.m.l1_table@ == s.m.l1_table@
        &&& t.m.cached() == s.m.cleared(a)
        &&& contents::changed_in(
            s.v,
            t.v,
            s.m.geometry,
            if qcow::map::is_plain(s.m.entry(a)) {
                Some(s.m.entry(a))
            } else {
                None
            },
            None,
        )
    }
}

/// The cluster of an address was marked as zero, with a new cluster for its table or without.
pub open spec fn marked(s: Image, t: Image, a: u64, table: Option<u64>) -> bool {
    &&& s.m.covers(a)
    &&& s.m.cached().contains_key(s.m.i(a)) || s.m.l1_table@[s.m.i(a)] == 0
    &&& contents::remapped(s.m, t.m, a, qcow::ZERO_FLAG, table)
    &&& contents::both_fresh(s.m, s.v, None, table)
    &&& contents::changed_in(s.v, t.v, s.m.geometry, None, table)
}

/// A step was carried out on an image, by way of another state of it: a cluster that is marked is
/// given up first, and zeroes that need a place are written once there is one.
pub open spec fn carried_out(
    s: Image,
    between: Image,
    t: Image,
    step: ZeroStep,
    table: Option<u64>,
) -> bool {
    match step {
        ZeroStep::Deallocate(a, _) => gave_up(s, t, a),
        ZeroStep::MarkZero(a, _) => gave_up(s, between, a) && marked(between, t, a, table),
        ZeroStep::Allocate(a, n) => {
            &&& between.sound()
            &&& s.covered(a as int)
            &&& transfers::kept(s, between, a as int, n as int)
            &&& qcow::map::is_plain(between.entry(a as int))
            &&& t.m == between.m
            &&& t.v == contents::written(
                between.v,
                between.entry(a as int) + a as int % s.m.geometry.cs(),
                zeroes(n as int),
            )
        },
        ZeroStep::ZeroAt(offset, n) => {
            &&& t.m == s.m
            &&& t.v == contents::written(s.v, offset as int, zeroes(n as int))
        },
        ZeroStep::Skip(_) => t == s,
        _ => false,
    }
}

/// A cluster that was given up is seen as what is below, or as zeroes.
proof fn a_given_up_cluster_is_seen(s: Image, t: Image, a: u64)
    requires
        s.sound(),
        s.m.drop_plan(a) is Nothing || s.m.drop_plan(a) is Zero || s.m.drop_plan(a) is Compressed
            || s.m.drop_plan(a) is Plain,
        gave_up(s, t, a),
    ensures
        t.sound(),
        contents::same_shape(s.m, t.m),
        forall|b: int|
            s.covered(b) ==> #[trigger] t.guest(b) == (if b / s.m.geometry.cs() == a as int
                / s.m.geometry.cs() {
                if s.m.has_backing {
                    (s.v.below)(b)
                } else {
                    0
                }
            } else {
                s.guest(b)
            }),
{
    let g = s.m.geometry;
    let a0 = a as int;
    contents::entry_facts(s.m, s.v, a0);
    contents::lookups_find_the_entry(s.m, s.v, a);
    qcow::map::flag_bits();
    if s.m.drop_plan(a) is Nothing {
        assert forall|b: int| s.covered(b) && b / g.cs() == a0 / g.cs() implies #[trigger] t.guest(
            b,
        ) == (if s.m.has_backing {
            (s.v.below)(b)
        } else {
            0
        }) by {
            geometry::entries_are_clusters(g, a0, b);
            assert(s.entry(b) == s.entry(a0));
            contents::entry_facts(s.m, s.v, b);
        }
    } else {
        let mid = Image { m: t.m, v: s.v };
        let host = if qcow::map::is_plain(s.m.entry(a)) {
            Some(s.m.entry(a))
        } else {
            None
        };
        contents::a_dropped_cluster_is_free(s.m, s.v, t.m, a);
        contents::unused_clusters_do_not_matter(t.m, s.v, t.v, host, None);
        assert forall|b: int| s.covered(b) implies #[trigger] t.guest(b) == (if b / g.cs() == a0
            / g.cs() {
            if s.m.has_backing {
                (s.v.below)(b)
            } else {
                0
            }
        } else {
            s.guest(b)
        }) by {
            assert(contents::covered(t.m, b));
            assert(contents::entry_at(t.m, t.v, b) == contents::entry_at(t.m, s.v, b));
            assert(contents::guest(t.m, s.v, b) == mid.guest(b));
        }
    }
}

/// Bytes that are written to the place of an address are seen there, and nowhere else.
proof fn zeroes_in_their_place(s: Image, t: Image, a: u64, offset: u64, n: int, b: int)
    requires
        s.sound(),
        s.covered(a as int),
        s.covered(b),
        qcow::map::is_plain(s.entry(a as int)),
        offset == s.entry(a as int) + a as int % s.m.geometry.cs(),
        0 <= n,
        a as int % s.m.geometry.cs() + n <= s.m.geometry.cs(),
        t.m == s.m,
        t.v == contents::written(s.v, offset as int, zeroes(n)),
    ensures
        t.sound(),
        t.guest(b) == (if a <= b < a + n {
            0
        } else {
            s.guest(b)
        }),
{
    contents::data_in_its_place_is_seen(s.m, s.v, a, offset, zeroes(n));
    assert(contents::guest(t.m, t.v, b) == t.guest(b));
}

/// Carrying out a step that zeroing a range asks for makes every byte of its piece zero, and leaves
/// every other byte as the guest saw it. Be it data of the file, a compressed cluster, a zero
/// cluster or nothing, with or without a file below: what is outside the piece is kept.
pub proof fn a_step_zeroes_its_piece_and_nothing_else(
    s: Image,
    between: Image,
    t: Image,
    table: Option<u64>,
    address: u64,
    length: usize,
    done: usize,
    b: int,
)
    requires
        s.sound(),
        done < requests::request_len(s.m.geometry, address, length),
        s.m.lookup((address + done) as u64) is Found,
        carried_out(s, between, t, requests::zero_step(s.m, address, length, done), table),
        s.covered(b),
    ensures
        t.sound(),
        contents::same_shape(s.m, t.m),
        ({
            let a = address + done;
            let n = requests::piece_len(s.m.geometry, address, length, done);
            t.guest(b) == (if a <= b < a + n {
                0
            } else {
                s.guest(b)
            })
        }),
{
    let g = s.m.geometry;
    let cs = g.cs();
    let a = (address + done) as u64;
    let a0 = a as int;
    let n = requests::piece_len(g, address, length, done);
    g.bounds();
    requests::pieces_cover_the_request(g, address, length, done);
    contents::lookups_find_the_entry(s.m, s.v, a);
    contents::entry_facts(s.m, s.v, a0);
    qcow::map::flag_bits();
    lemma_mod_bound(a0, cs);
    lemma_mod_bound(b, cs);
    lemma_fundamental_div_mod(a0, cs);
    lemma_fundamental_div_mod(b, cs);
    if s.m.cached().contains_key(s.m.i(a)) {
        s.m.cached_wf(s.m.i(a));
    }
    // The addresses of the piece are in the cluster of the first.
    if a0 <= b < a0 + n {
        lemma_div_is_ordered(a0, b, cs);
        lemma_div_is_ordered(b, a0 + n - 1, cs);
    }
    match requests::zero_step(s.m, address, length, done) {
        ZeroStep::Deallocate(x, _) => {
            a_given_up_cluster_is_seen(s, t, x);
        },
        ZeroStep::MarkZero(x, _) => {
            a_given_up_cluster_is_seen(s, between, x);
            contents::a_zeroed_cluster_is_seen_as_zeroes(
                between.m,
                between.v,
                t.m,
                t.v,
                x,
                table,
            );
            assert(contents::guest(t.m, t.v, b) == t.guest(b));
            assert(between.covered(b));
            assert(contents::guest(between.m, between.v, b) == between.guest(b));
            assert(t.guest(b) == (if b / cs == a0 / cs {
                0
            } else {
                between.guest(b)
            }));
        },
        ZeroStep::Allocate(x, len) => {
            let e = between.entry(a0);
            contents::entry_facts(between.m, between.v, a0);
            zeroes_in_their_place(between, t, x, (e + a0 % cs) as u64, len as int, b);
        },
        ZeroStep::ZeroAt(offset, len) => {
            zeroes_in_their_place(s, t, a, offset, len as int, b);
        },
        _ => {
            if a0 <= b < a0 + n {
                geometry::entries_are_clusters(g, a0, b);
                assert(s.entry(b) == s.entry(a0));
                contents::entry_facts(s.m, s.v, b);
            }
        },
    }
}

/// How far zeroing a range has come.
pub struct Zeroed {
    pub image: Image,
    pub done: int,
}

impl Zeroed {
    /// A step was carried out, or work on tables and counts was done that the guest does not see.
    pub open spec fn goes_on(
        self,
        next: Zeroed,
        between: Image,
        table: Option<u64>,
        address: u64,
        length: usize,
    ) -> bool {
        let g = self.image.m.geometry;
        let done = self.done as usize;
        ||| next.done == self.done && next.image.sound() && transfers::unseen(
            self.image,
            next.image,
        )
        ||| {
            &&& self.done < requests::request_len(g, address, length)
            &&& self.image.m.lookup((address + self.done) as u64) is Found
            &&& carried_out(
                self.image,
                between,
                next.image,
                requests::zero_step(self.image.m, address, length, done),
                table,
            )
            &&& next.done == self.done + requests::piece_len(g, address, length, done)
        }
    }
}

/// The steps are those of zeroing a range, from its beginning on.
pub open spec fn is_zeroing(
    states: Seq<Zeroed>,
    betweens: Seq<Image>,
    clusters: Seq<Option<u64>>,
    address: u64,
    length: usize,
) -> bool {
    &&& states.len() > 0
    &&& states[0].image.sound()
    &&& states[0].done == 0
    &&& forall|k: int|
        0 <= k < states.len() - 1 ==> (#[trigger] states[k]).goes_on(
            states[k + 1],
            betweens[k],
            clusters[k],
            address,
            length,
        )
}

/// However far zeroing a range has come, the bytes that are done are zero, and all others are what
/// the guest saw before.
pub proof fn a_range_is_zeroed_and_nothing_else(
    states: Seq<Zeroed>,
    betweens: Seq<Image>,
    clusters: Seq<Option<u64>>,
    address: u64,
    length: usize,
    k: int,
    b: int,
)
    requires
        is_zeroing(states, betweens, clusters, address, length),
        0 <= k < states.len(),
        states[0].image.covered(b),
    ensures
        states[k].image.sound(),
        contents::same_shape(states[0].image.m, states[k].image.m),
        0 <= states[k].done <= requests::request_len(
            states[0].image.m.geometry,
            address,
            length,
        ),
        states[k].image.guest(b) == (if address <= b < address + states[k].done {
            0
        } else {
            states[0].image.guest(b)
        }),
    decreases k,
{
    if k > 0 {
        let w = states[k - 1];
        let next = states[k - 1 + 1];
        let g = w.image.m.geometry;
        a_range_is_zeroed_and_nothing_else(
            states,
            betweens,
            clusters,
            address,
            length,
            k - 1,
            b,
        );
        assert(w.goes_on(next, betweens[k - 1], clusters[k - 1], address, length));
        assert(w.image.covered(b));
        if !(next.done == w.done && next.image.sound() && transfers::unseen(w.image, next.image)) {
            requests::pieces_cover_the_request(g, address, length, w.done as usize);
            a_step_zeroes_its_piece_and_nothing_else(
                w.image,
                betweens[k - 1],
                next.image,
                clusters[k - 1],
                address,
                length,
                w.done as usize,
                b,
            );
        }
    }
}

} // verus!
