//! Whole requests of the guest: what was written is read, and nothing else changes.
//!
//! A request is served piece by piece, with work on the tables and the counts in between. Here it is
//! followed from its first piece to its last.

use vstd::arithmetic::div_mod::*;
use vstd::prelude::*;

use crate::qcow;
use crate::qcow::books;
use crate::qcow::books::Books;
use crate::qcow::contents;
use crate::qcow::contents::Volume;
use crate::qcow::map::{ClusterData, Lookup, Mapping, WritePlan};
use crate::qcow::place;
use crate::qcow::place::{Layout, Placing, Turn};
use crate::qcow::requests;

verus! {

/// An image at one moment: its tables, as far as they are in memory, and its file.
pub struct Image {
    pub m: Mapping,
    pub v: Volume,
}

impl Image {
    /// Nothing in the file is used twice.
    pub open spec fn sound(self) -> bool {
        self.m.wf() && contents::tidy(self.m, self.v)
    }

    /// The byte that the guest sees at an address.
    pub open spec fn guest(self, a: int) -> u8 {
        contents::guest(self.m, self.v, a)
    }

    /// The entry of the cluster of an address.
    pub open spec fn entry(self, a: int) -> u64 {
        contents::entry_at(self.m, self.v, a)
    }

    /// The address is part of the image.
    pub open spec fn covered(self, a: int) -> bool {
        contents::covered(self.m, a)
    }
}

/// The guest sees the same in both images, but for `n` bytes from `a` on.
pub open spec fn kept(s: Image, t: Image, a: int, n: int) -> bool {
    &&& contents::same_shape(s.m, t.m)
    &&& forall|b: int| s.covered(b) && !(a <= b < a + n) ==> #[trigger] t.guest(b) == s.guest(b)
}

/// The guest sees the same in both images, and no data of it has moved.
pub open spec fn unseen(s: Image, t: Image) -> bool {
    &&& contents::same_shape(s.m, t.m)
    &&& forall|b: int| s.covered(b) ==> #[trigger] t.guest(b) == s.guest(b)
    &&& forall|b: int|
        s.covered(b) && qcow::map::is_plain(s.entry(b)) ==> #[trigger] t.entry(b) == s.entry(b)
}

/// What is not seen twice is not seen.
pub proof fn unseen_twice(s: Image, t: Image, u: Image)
    requires
        unseen(s, t),
        unseen(t, u),
    ensures
        unseen(s, u),
{
    assert forall|b: int| s.covered(b) implies #[trigger] u.guest(b) == s.guest(b) by {
        assert(t.covered(b));
        assert(t.guest(b) == s.guest(b));
    }
    assert forall|b: int|
        s.covered(b) && qcow::map::is_plain(s.entry(b)) implies #[trigger] u.entry(b) == s.entry(
        b,
    ) by {
        assert(t.covered(b));
        assert(t.entry(b) == s.entry(b));
    }
}

/// The tables in memory may differ, but nothing else of the image does.
pub open spec fn same_tables(s: Image, t: Image) -> bool {
    &&& t.m.wf()
    &&& t.m.geometry == s.m.geometry
    &&& t.m.has_backing == s.m.has_backing
    &&& t.m.l1_table@ == s.m.l1_table@
    &&& t.v == s.v
}

/// The table with L1 index `k` was read into memory.
pub open spec fn loads(s: Image, t: Image, k: int) -> bool {
    &&& same_tables(s, t)
    &&& !s.m.cached().contains_key(k)
    &&& t.m.cached() == s.m.cached().insert(k, t.m.cached()[k])
    &&& contents::is_loaded(s.m, s.v, k, t.m.cached()[k].values)
}

/// The table with L1 index `k` was given up, which is in the file as it was in memory.
pub open spec fn gives_up(s: Image, t: Image, k: int) -> bool {
    &&& same_tables(s, t)
    &&& s.m.cached().contains_key(k)
    &&& t.m.cached() == s.m.cached().remove(k)
    &&& contents::is_stored(s.m, s.v, k)
}

/// The table with L1 index `k`, which is in memory, was written to its cluster.
pub open spec fn stores(s: Image, t: Image, k: int) -> bool {
    &&& t.m == s.m
    &&& s.m.cached().contains_key(k)
    &&& contents::changed_in(s.v, t.v, s.m.geometry, Some(s.m.l1_table@[k]), None)
}

/// Something was written to clusters that nothing of the guest's uses, such as a block of counts.
pub open spec fn writes_elsewhere(s: Image, t: Image, c: Option<u64>, d: Option<u64>) -> bool {
    &&& t.m == s.m
    &&& c matches Some(at) ==> contents::fresh(s.m, s.v, at as int)
    &&& d matches Some(at) ==> contents::fresh(s.m, s.v, at as int)
    &&& contents::changed_in(s.v, t.v, s.m.geometry, c, d)
}

/// The work on tables and counts that comes between the pieces of a request is not seen by the
/// guest.
pub proof fn housekeeping_is_unseen(s: Image, t: Image, k: int, c: Option<u64>, d: Option<u64>)
    requires
        s.sound(),
        loads(s, t, k) || gives_up(s, t, k) || stores(s, t, k) || writes_elsewhere(s, t, c, d),
    ensures
        unseen(s, t),
        t.sound(),
{
    if loads(s, t, k) {
        contents::tables_in_memory_do_not_matter(s.m, t.m, s.v, k);
    } else if gives_up(s, t, k) {
        contents::a_stored_table_can_be_given_up(s.m, t.m, s.v, k);
    } else if stores(s, t, k) {
        contents::writing_a_table_changes_nothing(s.m, s.v, t.v, k);
    } else {
        contents::unused_clusters_do_not_matter(s.m, s.v, t.v, c, d);
    }
    assert forall|b: int| s.covered(b) implies #[trigger] t.guest(b) == s.guest(b) by {
        assert(t.entry(b) == contents::entry_at(t.m, t.v, b));
    }
}

/// What is done between the pieces of a request.
pub enum Upkeep {
    /// A cluster is taken.
    Take(u64),
    /// The count of a cluster that is set aside is set.
    Count(u64, int),
    /// Clusters that were set aside are given back.
    GiveBack(Seq<u64>),
    /// The clusters that nothing refers to can be used: the file is up to date.
    Sync,
    /// A count is lowered for a reference that was given up.
    Lower(u64),
    /// The table with that L1 index is read.
    Load(int),
    /// The table with that L1 index is given up.
    GiveUp(int),
    /// The table with that L1 index is written.
    Store(int),
    /// Something is written to clusters that are free or set aside, such as a block of counts.
    Write(Option<u64>, Option<u64>),
}

/// The pools and the counts are the same.
pub open spec fn same_books(s: Books, t: Books) -> bool {
    &&& t.count == s.count
    &&& t.pools == s.pools
    &&& t.held == s.held
    &&& t.owed == s.owed
    &&& t.size == s.size
}

/// A step of the upkeep was done.
pub open spec fn keeps_up(s: Books, t: Books, u: Upkeep) -> bool {
    match u {
        Upkeep::Take(c) => books::took(s, t, c),
        Upkeep::Count(c, n) => books::recounted(s, t, c, n),
        Upkeep::GiveBack(freed) => books::gave_back(s, t, freed),
        Upkeep::Sync => books::synced(s, t),
        Upkeep::Lower(h) => books::lowered(s, t, h),
        Upkeep::Load(k) => same_books(s, t) && loads(s.image, t.image, k),
        Upkeep::GiveUp(k) => same_books(s, t) && gives_up(s.image, t.image, k),
        Upkeep::Store(k) => same_books(s, t) && stores(s.image, t.image, k),
        Upkeep::Write(c, d) => {
            &&& same_books(s, t)
            &&& t.image.m == s.image.m
            &&& c matches Some(at) ==> s.is_listed(at)
            &&& d matches Some(at) ==> s.is_listed(at)
            &&& contents::changed_in(s.image.v, t.image.v, s.image.m.geometry, c, d)
        },
    }
}

/// The upkeep is not seen by the guest, and keeps the books in order.
pub proof fn upkeep_is_unseen(s: Books, t: Books, u: Upkeep)
    requires
        s.sound(),
        keeps_up(s, t, u),
    ensures
        t.sound(),
        unseen(s.image, t.image),
{
    match u {
        Upkeep::Take(c) => books::taking_a_cluster_keeps_the_books(s, t, c),
        Upkeep::Count(c, n) => books::counting_a_cluster_keeps_the_books(s, t, c, n),
        Upkeep::GiveBack(freed) => books::giving_back_keeps_the_books(s, t, freed),
        Upkeep::Sync => books::syncing_keeps_the_books(s, t),
        Upkeep::Lower(h) => books::lowering_a_count_keeps_the_books(s, t, h),
        Upkeep::Load(k) => {
            housekeeping_is_unseen(s.image, t.image, k, None, None);
            contents::tables_in_memory_do_not_matter(s.image.m, t.image.m, s.image.v, k);
            books::staying_in_place_keeps_the_books(s, t);
        },
        Upkeep::GiveUp(k) => {
            housekeeping_is_unseen(s.image, t.image, k, None, None);
            contents::a_stored_table_can_be_given_up(s.image.m, t.image.m, s.image.v, k);
            books::staying_in_place_keeps_the_books(s, t);
        },
        Upkeep::Store(k) => {
            housekeeping_is_unseen(s.image, t.image, k, None, None);
            contents::writing_a_table_changes_nothing(s.image.m, s.image.v, t.image.v, k);
            books::staying_in_place_keeps_the_books(s, t);
        },
        Upkeep::Write(c, d) => {
            if let Some(at) = c {
                books::listed_clusters_are_fresh(s, at);
            }
            if let Some(at) = d {
                books::listed_clusters_are_fresh(s, at);
            }
            housekeeping_is_unseen(s.image, t.image, 0, c, d);
            contents::unused_clusters_do_not_matter(s.image.m, s.image.v, t.image.v, c, d);
            books::staying_in_place_keeps_the_books(s, t);
        },
    }
}

/// Every state comes from the one before by a step of the upkeep.
pub open spec fn are_kept_up(states: Seq<Books>, steps: Seq<Upkeep>) -> bool {
    &&& states.len() == steps.len() + 1
    &&& states[0].sound()
    &&& forall|i: int|
        0 <= i < steps.len() ==> keeps_up(states[i], states[i + 1], #[trigger] steps[i])
}

/// However much upkeep is done, the guest sees none of it, and the books stay in order. That is all
/// that happens to an image between the pieces of a read.
pub proof fn no_upkeep_is_seen(states: Seq<Books>, steps: Seq<Upkeep>, k: int)
    requires
        are_kept_up(states, steps),
        0 <= k < states.len(),
    ensures
        states[k].sound(),
        unseen(states[0].image, states[k].image),
    decreases k,
{
    if k > 0 {
        no_upkeep_is_seen(states, steps, k - 1);
        assert(keeps_up(states[k - 1], states[k - 1 + 1], steps[k - 1]));
        upkeep_is_unseen(states[k - 1], states[k], steps[k - 1]);
        unseen_twice(states[0].image, states[k - 1].image, states[k].image);
    }
}

/// A write found the place for its data: the tables were changed, and what the new cluster starts
/// out with is in it. That cluster and the one of the table were taken before, and the first of them
/// is counted.
pub open spec fn placed(
    s: Books,
    t: Books,
    p: Placing,
    after: Placing,
    table: Option<u64>,
    before: Layout,
    now: Layout,
    r: Turn,
) -> bool {
    &&& before.wf() && now.wf()
    &&& p.ready(s.image.m, table)
    &&& p.repointed(&after, table, before, now, r)
    &&& s.counted(p.data as int / s.cs()) > 0
    &&& books::pointed(s, t, before, now, p.address, p.data, table)
    &&& contents::cluster_holds(
        s.image.m,
        s.image.v,
        s.image.v,
        p.data as int,
        place::fill_of(p.plan),
        0,
        Seq::empty(),
    )
}

/// Finding a place for data leaves every byte as the guest saw it, but those that are going to be
/// overwritten at once; where they are not the whole cluster, not even those change. Be it data of
/// the file below, a compressed cluster, a zero cluster or nothing, it is copied along. The address
/// is stored where the operation says.
pub proof fn a_placing_keeps_what_is_seen(
    s: Books,
    t: Books,
    p: Placing,
    after: Placing,
    table: Option<u64>,
    before: Layout,
    now: Layout,
    r: Turn,
)
    requires
        s.sound(),
        placed(s, t, p, after, table, before, now, r),
        p.address as int % s.image.m.geometry.cs() + p.overwrite_len <= s.image.m.geometry.cs(),
    ensures
        kept(s.image, t.image, p.address as int, p.overwrite_len as int),
        !s.image.m.overwrites(p.address, p.overwrite_len) ==> kept(
            s.image,
            t.image,
            p.address as int,
            0,
        ),
        t.sound(),
        s.image.covered(p.address as int),
        t.image.entry(p.address as int) == p.data,
        t.image.m.lookup(p.address) == Lookup::Found(ClusterData::Plain(p.end(s.image.m))),
        p.end(s.image.m) == p.data + p.address as int % s.image.m.geometry.cs(),
        r matches Turn::Done(offset) ==> offset == p.end(s.image.m),
{
    let a = p.address as int;
    let g = s.image.m.geometry;
    let fill = place::fill_of(p.plan);
    g.bounds();
    place::a_placed_write_is_found(p, after, table, before, now, r, p.address);
    qcow::map::plain_bounds(p.data);
    lemma_mod_bound(a, g.cs());
    books::a_placing_keeps_the_books(s, t, before, now, p, after, table, r);
    contents::after_remapping(
        s.image.m,
        s.image.v,
        t.image.m,
        s.image.v,
        p.address,
        p.data,
        Some(p.data),
        table,
    );
    assert(contents::entry_at(t.image.m, t.image.v, a) == p.data);
    if s.image.m.overwrites(p.address, p.overwrite_len) {
        assert forall|b: int| s.image.covered(b) && !(a <= b < a + p.overwrite_len) implies #[trigger] t.image.guest(
            b,
        ) == s.image.guest(b) by {
            if b / g.cs() == a / g.cs() {
                lemma_fundamental_div_mod(a, g.cs());
                lemma_fundamental_div_mod(b, g.cs());
                lemma_mod_bound(b, g.cs());
            }
            assert(contents::guest(t.image.m, t.image.v, b) == contents::guest(s.image.m, s.image.v, b));
        }
    } else {
        assert(!s.image.m.overwrites(p.address, 0));
        assert(s.image.m.write_plan(p.address, 0) == s.image.m.write_plan(p.address, p.overwrite_len));
        let nothing = Seq::<u8>::empty();
        assert(contents::cluster_holds(s.image.m, s.image.v, s.image.v, p.data as int, fill, a % g.cs(), nothing));
        contents::a_write_to_a_new_cluster_is_seen(
            s.image.m,
            s.image.v,
            t.image.m,
            s.image.v,
            p.address,
            nothing,
            fill,
            p.data,
            table,
        );
        assert forall|b: int| s.image.covered(b) implies #[trigger] t.image.guest(b) == s.image.guest(b) by {
            assert(contents::guest(t.image.m, t.image.v, b) == contents::guest(s.image.m, s.image.v, b));
        }
    }
}

/// What happens to an image while a write is served.
pub enum Event {
    /// Work on the tables, the pools and the counts.
    Upkeep(Upkeep),
    /// The data of the next piece has a place already, at that offset.
    Found(u64),
    /// A place for the data of the next piece was found.
    Placed(Placing, Placing, Option<u64>, Layout, Layout, Turn),
    /// The data of the next piece is written to its place.
    Data,
}

/// A write that is served.
pub struct Writing {
    pub books: Books,
    /// How many bytes are written.
    pub done: int,
    /// The place for the data of the next piece, once it was found.
    pub place: Option<u64>,
}

impl Writing {
    /// The image as it is now.
    pub open spec fn image(self) -> Image {
        self.books.image
    }

    /// How many bytes the request has in this image.
    pub open spec fn len(self, address: u64, data: Seq<u8>) -> int {
        requests::request_len(self.image().m.geometry, address, data.len() as usize)
    }

    /// How many bytes the next piece has.
    pub open spec fn piece(self, address: u64, data: Seq<u8>) -> int {
        requests::piece_len(
            self.image().m.geometry,
            address,
            data.len() as usize,
            self.done as usize,
        )
    }

    /// The address of the next piece.
    pub open spec fn at(self, address: u64) -> u64 {
        (address + self.done) as u64
    }

    /// The write goes a step further.
    pub open spec fn goes_on(self, next: Writing, event: Event, address: u64, data: Seq<u8>) -> bool {
        let n = self.piece(address, data);
        match event {
            Event::Upkeep(u) => {
                &&& keeps_up(self.books, next.books, u)
                &&& next.done == self.done
                &&& next.place == self.place
            },
            Event::Found(offset) => {
                &&& self.place is None
                &&& self.done < self.len(address, data)
                &&& self.image().m.write_plan(self.at(address), n as usize) == WritePlan::InPlace(
                    offset,
                )
                &&& next == (Writing { place: Some(offset), ..self })
            },
            Event::Placed(p, after, table, before, now, r) => {
                &&& self.place is None
                &&& self.done < self.len(address, data)
                &&& p.address == self.at(address)
                &&& p.overwrite_len == n
                &&& placed(self.books, next.books, p, after, table, before, now, r)
                &&& next.done == self.done
                &&& next.place == Some(p.end(self.image().m))
            },
            Event::Data => {
                &&& self.place matches Some(offset)
                &&& same_books(self.books, next.books)
                &&& next.image().m == self.image().m
                &&& next.image().v == contents::written(
                    self.image().v,
                    self.place->0 as int,
                    data.subrange(self.done, self.done + n),
                )
                &&& next.done == self.done + n
                &&& next.place is None
            },
        }
    }

    /// What is known of a write that began with `first`: the guest sees the bytes that are written,
    /// and elsewhere what it saw before, but for those of a piece that is under way.
    spec fn follows(self, first: Image, address: u64, data: Seq<u8>) -> bool {
        let a = self.at(address) as int;
        let n = self.piece(address, data);
        &&& self.books.sound()
        &&& contents::same_shape(first.m, self.image().m)
        &&& 0 <= self.done <= self.len(address, data)
        &&& match self.place {
            None => forall|b: int|
                first.covered(b) ==> #[trigger] self.image().guest(b) == expected(
                    first,
                    address as int,
                    data.take(self.done),
                    b,
                ),
            Some(offset) => {
                &&& self.done < self.len(address, data)
                &&& first.covered(a)
                &&& qcow::map::is_plain(self.image().entry(a))
                &&& offset == self.image().entry(a) + a % first.m.geometry.cs()
                &&& forall|b: int|
                    first.covered(b) && !(a <= b < a + n) ==> #[trigger] self.image().guest(b)
                        == expected(first, address as int, data.take(self.done), b)
            },
        }
    }
}

/// What the guest sees at `b` once `data` was written at `a` over an image.
pub open spec fn expected(first: Image, a: int, data: Seq<u8>, b: int) -> u8 {
    if a <= b < a + data.len() {
        data[b - a]
    } else {
        first.guest(b)
    }
}

/// Where the next piece of a request lies.
proof fn piece_facts(w: Writing, address: u64, data: Seq<u8>)
    requires
        w.image().m.wf(),
        data.len() <= usize::MAX,
        0 <= w.done < w.len(address, data),
    ensures
        w.at(address) == address + w.done,
        0 < w.piece(address, data),
        w.done + w.piece(address, data) <= w.len(address, data) <= data.len(),
        w.at(address) as int % w.image().m.geometry.cs() + w.piece(address, data)
            <= w.image().m.geometry.cs(),
        w.piece(address, data) <= usize::MAX,
{
    let g = w.image().m.geometry;
    g.bounds();
    requests::pieces_cover_the_request(g, address, data.len() as usize, w.done as usize);
    lemma_mod_bound(address + w.done, g.cs());
}

/// Every step of a write keeps to it.
proof fn a_step_follows(
    w: Writing,
    next: Writing,
    event: Event,
    first: Image,
    address: u64,
    data: Seq<u8>,
)
    requires
        data.len() <= usize::MAX,
        w.follows(first, address, data),
        w.goes_on(next, event, address, data),
    ensures
        next.follows(first, address, data),
{
    let g = first.m.geometry;
    let a = w.at(address) as int;
    let n = w.piece(address, data);
    let so_far = data.take(w.done);
    g.bounds();
    if w.done < w.len(address, data) {
        piece_facts(w, address, data);
    }
    match event {
        Event::Upkeep(u) => {
            upkeep_is_unseen(w.books, next.books, u);
            assert forall|b: int| first.covered(b) implies #[trigger] next.image().guest(b)
                == w.image().guest(b) by {
                assert(w.image().covered(b));
            }
            if w.place is Some {
                assert(w.image().covered(a));
                assert(next.image().entry(a) == w.image().entry(a));
            }
        },
        Event::Found(offset) => {
            let m = w.image().m;
            qcow::map::reads_and_writes_agree(m, w.at(address), n as usize, offset);
            contents::lookups_find_the_entry(m, w.image().v, w.at(address));
            contents::entry_facts(m, w.image().v, a);
            assert(first.covered(a));
        },
        Event::Placed(p, after, table, before, now, r) => {
            a_placing_keeps_what_is_seen(w.books, next.books, p, after, table, before, now, r);
            assert(first.covered(a));
            assert forall|b: int| first.covered(b) && !(a <= b < a + n) implies #[trigger] next.image().guest(
                b,
            ) == expected(first, address as int, so_far, b) by {
                assert(w.image().covered(b));
                assert(w.image().guest(b) == expected(first, address as int, so_far, b));
            }
        },
        Event::Data => {
            let offset = w.place->0;
            let piece = data.subrange(w.done, w.done + n);
            assert(w.image().covered(a));
            contents::data_in_its_place_is_seen(
                w.image().m,
                w.image().v,
                w.at(address),
                offset,
                piece,
            );
            books::staying_in_place_keeps_the_books(w.books, next.books);
            let now = data.take(next.done);
            assert forall|b: int| first.covered(b) implies #[trigger] next.image().guest(b)
                == expected(first, address as int, now, b) by {
                assert(w.image().covered(b));
                assert(contents::guest(next.image().m, next.image().v, b) == (if a <= b < a + n {
                    piece[b - a]
                } else {
                    w.image().guest(b)
                }));
                if !(a <= b < a + n) {
                    assert(w.image().guest(b) == expected(first, address as int, so_far, b));
                }
            }
        },
    }
}

/// The steps are those of a write of `data` at `address`, from its beginning on.
pub open spec fn is_write(
    steps: Seq<Writing>,
    events: Seq<Event>,
    address: u64,
    data: Seq<u8>,
) -> bool {
    &&& steps.len() == events.len() + 1
    &&& steps[0].books.sound()
    &&& steps[0].done == 0
    &&& steps[0].place is None
    &&& forall|i: int|
        0 <= i < events.len() ==> #[trigger] steps[i].goes_on(
            steps[i + 1],
            events[i],
            address,
            data,
        )
}

/// So far, every step has kept to the write.
proof fn steps_follow(
    steps: Seq<Writing>,
    events: Seq<Event>,
    address: u64,
    data: Seq<u8>,
    i: int,
)
    requires
        data.len() <= usize::MAX,
        is_write(steps, events, address, data),
        0 <= i < steps.len(),
    ensures
        steps[i].follows(steps[0].image(), address, data),
    decreases i,
{
    if i > 0 {
        steps_follow(steps, events, address, data, i - 1);
        assert(steps[i - 1].goes_on(steps[i - 1 + 1], events[i - 1], address, data));
        a_step_follows(
            steps[i - 1],
            steps[i],
            events[i - 1],
            steps[0].image(),
            address,
            data,
        );
    } else {
        assert(data.take(0) =~= Seq::<u8>::empty());
    }
}

/// A write that is served to its end is seen as a whole: the guest sees the bytes that the image has
/// room for where it wrote them, and everywhere else, in the same clusters and in others, what it saw
/// before.
pub proof fn a_whole_write_is_seen(
    steps: Seq<Writing>,
    events: Seq<Event>,
    address: u64,
    data: Seq<u8>,
)
    requires
        data.len() <= usize::MAX,
        is_write(steps, events, address, data),
        steps.last().done >= steps[0].len(address, data),
    ensures
        ({
            let n = steps[0].len(address, data);
            let first = steps[0].image();
            let last = steps.last().image();
            &&& contents::wrote(
                first.m,
                first.v,
                last.m,
                last.v,
                address as int,
                data.take(n),
            )
            &&& steps.last().books.sound()
            &&& steps.last().done == n
        }),
{
    let n = steps[0].len(address, data);
    let first = steps[0].image();
    let last = steps.last().image();
    steps_follow(steps, events, address, data, steps.len() - 1);
    assert(steps.last() == steps[steps.len() - 1]);
    assert forall|b: int| contents::covered(first.m, b) implies #[trigger] contents::guest(
        last.m,
        last.v,
        b,
    ) == (if address <= b < address + data.take(n).len() {
        data.take(n)[b - address]
    } else {
        contents::guest(first.m, first.v, b)
    }) by {
        assert(first.covered(b));
        assert(last.guest(b) == expected(first, address as int, data.take(n), b));
    }
}

/// One piece of a read: the image at that moment, and how many bytes were read before.
pub struct Piece {
    pub image: Image,
    pub done: int,
}

impl Piece {
    /// The piece was read into `out`, from where the tables say.
    pub open spec fn is_in(self, address: u64, count: usize, out: Seq<u8>) -> bool {
        let m = self.image.m;
        match m.lookup((address + self.done) as u64) {
            Lookup::Found(data) => forall|d: int|
                0 <= d < requests::piece_len(m.geometry, address, count, self.done as usize)
                    ==> #[trigger] out[self.done + d] == contents::source_byte(
                    m,
                    self.image.v,
                    requests::source_of(m, (address + self.done) as u64, data),
                    d,
                ),
            _ => false,
        }
    }
}

/// The pieces are those of a read of `count` bytes at `address`, from its beginning to its end, and
/// `out` is what was read. In between, nothing happens to the image that the guest could see.
pub open spec fn is_read(
    first: Image,
    pieces: Seq<Piece>,
    address: u64,
    count: usize,
    out: Seq<u8>,
) -> bool {
    let g = first.m.geometry;
    let n = requests::request_len(g, address, count);
    &&& out.len() == n
    &&& n == 0 ==> pieces.len() == 0
    &&& n > 0 ==> pieces.len() > 0 && pieces[0].done == 0 && pieces.last().done
        + requests::piece_len(g, address, count, pieces.last().done as usize) == n
    &&& forall|k: int|
        0 <= k < pieces.len() ==> {
            &&& 0 <= #[trigger] pieces[k].done < n
            &&& pieces[k].image.m.wf()
            &&& unseen(first, pieces[k].image)
            &&& pieces[k].is_in(address, count, out)
        }
    &&& forall|k: int|
        0 <= k < pieces.len() - 1 ==> (#[trigger] pieces[k + 1]).done == pieces[k].done
            + requests::piece_len(g, address, count, pieces[k].done as usize)
}

/// The pieces up to one of them hold what the guest sees.
proof fn pieces_show(
    first: Image,
    pieces: Seq<Piece>,
    address: u64,
    count: usize,
    out: Seq<u8>,
    k: int,
    i: int,
)
    requires
        first.m.wf(),
        is_read(first, pieces, address, count, out),
        0 <= k < pieces.len(),
        0 <= i < pieces[k].done + requests::piece_len(
            first.m.geometry,
            address,
            count,
            pieces[k].done as usize,
        ),
    ensures
        first.covered(address + i),
        out[i] == first.guest(address + i),
    decreases k,
{
    let g = first.m.geometry;
    let p = pieces[k];
    if i < p.done {
        assert(pieces[k - 1 + 1].done == pieces[k - 1].done + requests::piece_len(
            g,
            address,
            count,
            pieces[k - 1].done as usize,
        ));
        pieces_show(first, pieces, address, count, out, k - 1, i);
    } else {
        let d = i - p.done;
        let m = p.image.m;
        let a = (address + p.done) as u64;
        let data = m.lookup(a)->Found_0;
        requests::pieces_cover_the_request(g, address, count, p.done as usize);
        contents::a_read_shows_what_the_guest_sees(
            m,
            p.image.v,
            address,
            count,
            p.done as usize,
            data,
            d,
        );
        assert(out[p.done + d] == p.image.guest(address + i));
        contents::lookups_find_the_entry(m, p.image.v, a);
        g.bounds();
        lemma_mod_bound(a as int, g.cs());
        lemma_fundamental_div_mod(a as int, g.cs());
        let q = a as int / g.cs();
        assert(g.cs() * q == q * g.cs()) by (nonlinear_arith);
        lemma_fundamental_div_mod_converse(a + d, g.cs(), q, a as int % g.cs() + d);
        assert(first.covered(a + d));
        assert(p.image.guest(a + d) == first.guest(a + d));
    }
}

/// A read that is served to its end gives what the guest sees: as many bytes as the image has of the
/// request, each of them the one at its address.
pub proof fn a_whole_read_shows_what_the_guest_sees(
    first: Image,
    pieces: Seq<Piece>,
    address: u64,
    count: usize,
    out: Seq<u8>,
    i: int,
)
    requires
        first.m.wf(),
        is_read(first, pieces, address, count, out),
    ensures
        out.len() == requests::request_len(first.m.geometry, address, count),
        0 <= i < out.len() ==> first.covered(address + i) && out[i] == first.guest(address + i),
{
    if 0 <= i < out.len() {
        pieces_show(first, pieces, address, count, out, pieces.len() - 1, i);
    }
}

/// A read after a write gives back what was written where the two meet, and elsewhere what the guest
/// saw before the write.
pub proof fn a_read_gives_back_what_was_written(
    steps: Seq<Writing>,
    events: Seq<Event>,
    at: u64,
    data: Seq<u8>,
    pieces: Seq<Piece>,
    address: u64,
    count: usize,
    out: Seq<u8>,
    i: int,
)
    requires
        data.len() <= usize::MAX,
        is_write(steps, events, at, data),
        steps.last().done >= steps[0].len(at, data),
        is_read(steps.last().image(), pieces, address, count, out),
    ensures
        ({
            let first = steps[0].image();
            let n = steps[0].len(at, data);
            &&& out.len() == requests::request_len(first.m.geometry, address, count)
            &&& 0 <= i < out.len() ==> out[i] == expected(
                first,
                at as int,
                data.take(n),
                address + i,
            )
        }),
{
    let first = steps[0].image();
    let last = steps.last().image();
    let n = steps[0].len(at, data);
    a_whole_write_is_seen(steps, events, at, data);
    a_whole_read_shows_what_the_guest_sees(last, pieces, address, count, out, i);
    if 0 <= i < out.len() {
        assert(contents::covered(first.m, address + i));
        assert(contents::guest(last.m, last.v, address + i) == expected(
            first,
            at as int,
            data.take(n),
            address + i,
        ));
    }
}

} // verus!
