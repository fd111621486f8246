//! Setting the count of a cluster, and releasing clusters.
//!
//! Setting a count can move the block that holds it to another cluster: the old cluster has to be
//! counted as free and the new one as used, which may move further blocks. The order of all that is
//! decided here, from how each assignment went.

use vstd::prelude::*;

verus! {

/// How setting a count went.
#[derive(Clone, Copy, Debug, PartialEq, Eq, Structural)]
pub enum Outcome {
    /// The count is set.
    Stored,
    /// The count is set; its block has moved away from that cluster.
    StoredAndMoved(u64),
    /// The block has to be read first, from that offset.
    NeedBlock(u64),
    /// A cluster for the block has to be found first.
    NeedNewBlock,
}

/// What comes next.
#[derive(Clone, Copy, Debug, PartialEq, Eq, Structural)]
pub enum Step {
    /// Set the count of the cluster at that offset.
    Store(u64, u16),
    /// Read the block at that offset, and set the same count with it.
    ReadBlock(u64),
    /// Find a cluster for a block, and report it to [`Assignments::block_found`].
    FindBlock,
    /// Set the same count, with an empty block in the cluster at that offset.
    StoreWithBlock(u64, u16, u64),
    /// All is set.
    Done,
}

/// Counts that are still to be set.
#[derive(Debug)]
pub struct Assignments {
    /// The clusters and their counts; the last is the next.
    pub pending: Vec<(u64, u16)>,
    /// The assignment that is under way.
    pub current: (u64, u16),
    /// The clusters that blocks have moved away from.
    pub dropped: Vec<u64>,
}

impl Assignments {
    /// No cluster was dropped twice.
    pub open spec fn wf(&self) -> bool {
        self.dropped@.no_duplicates()
    }

    /// Starts with one assignment.
    pub fn start(address: u64, refcount: u16) -> (r: (Assignments, Step))
        ensures
            r.0.wf(),
            r.0.pending@ == Seq::<(u64, u16)>::empty(),
            r.0.current == (address, refcount),
            r.0.dropped@ == Seq::<u64>::empty(),
            r.1 == Step::Store(address, refcount),
    {
        let a = Assignments {
            pending: Vec::new(),
            current: (address, refcount),
            dropped: Vec::new(),
        };
        (a, Step::Store(address, refcount))
    }

    /// Goes on to the next assignment.
    fn next(&mut self) -> (r: Step)
        ensures
            final(self).dropped@ == old(self).dropped@,
            if old(self).pending@.len() == 0 {
                r == Step::Done && final(self).pending@ == old(self).pending@ && final(self).current
                    == old(self).current
            } else {
                &&& final(self).pending@ == old(self).pending@.drop_last()
                &&& final(self).current == old(self).pending@.last()
                &&& r == Step::Store(old(self).pending@.last().0, old(self).pending@.last().1)
            },
    {
        match self.pending.pop() {
            None => Step::Done,
            Some((address, refcount)) => {
                self.current = (address, refcount);
                Step::Store(address, refcount)
            },
        }
    }

    /// The assignments that are left once the current one is done, if its block has moved away
    /// from `moved`.
    pub open spec fn left_after(&self, moved: Option<u64>) -> Seq<(u64, u16)> {
        match moved {
            Some(a) => if self.dropped@.contains(a) {
                self.pending@
            } else {
                self.pending@.push((a, 0u16))
            },
            None => self.pending@,
        }
    }

    /// The clusters that blocks have moved away from once the current assignment is done.
    pub open spec fn dropped_after(&self, moved: Option<u64>) -> Seq<u64> {
        match moved {
            Some(a) => if self.dropped@.contains(a) {
                self.dropped@
            } else {
                self.dropped@.push(a)
            },
            None => self.dropped@,
        }
    }

    /// The current assignment is done; its block may have moved away from a cluster, which is then
    /// to be counted as free, once.
    fn done(&mut self, moved: Option<u64>) -> (r: Step)
        requires
            old(self).wf(),
        ensures
            final(self).wf(),
            final(self).dropped@ == old(self).dropped_after(moved),
            ({
                let left = old(self).left_after(moved);
                if left.len() == 0 {
                    r == Step::Done && final(self).pending@ == left && final(self).current == old(self).current
                } else {
                    r == Step::Store(left.last().0, left.last().1) && final(self).pending@
                        == left.drop_last() && final(self).current == left.last()
                }
            }),
    {
        if let Some(a) = moved {
            let mut seen = false;
            let mut i: usize = 0;
            while i < self.dropped.len()
                invariant
                    i <= self.dropped@.len(),
                    *self == *old(self),
                    seen == exists|j: int| 0 <= j < i && self.dropped@[j] == a,
                decreases self.dropped@.len() - i,
            {
                if self.dropped[i] == a {
                    seen = true;
                }
                i = i + 1;
            }
            assert(seen == self.dropped@.contains(a));
            if !seen {
                self.dropped.push(a);
                self.pending.push((a, 0));
            }
        }
        self.next()
    }

    /// Setting the count went so.
    pub fn outcome(&mut self, o: Outcome) -> (r: Step)
        requires
            old(self).wf(),
        ensures
            final(self).wf(),
            match o {
                Outcome::NeedBlock(a) => r == Step::ReadBlock(a) && *final(self) == *old(self),
                Outcome::NeedNewBlock => r == Step::FindBlock && *final(self) == *old(self),
                _ => {
                    let moved = if let Outcome::StoredAndMoved(a) = o {
                        Some(a)
                    } else {
                        None
                    };
                    let left = old(self).left_after(moved);
                    &&& final(self).dropped@ == old(self).dropped_after(moved)
                    &&& if left.len() == 0 {
                        r == Step::Done && final(self).pending@ == left
                    } else {
                        r == Step::Store(left.last().0, left.last().1) && final(self).pending@
                            == left.drop_last() && final(self).current == left.last()
                    }
                },
            },
    {
        match o {
            Outcome::NeedBlock(a) => Step::ReadBlock(a),
            Outcome::NeedNewBlock => Step::FindBlock,
            Outcome::Stored => self.done(None),
            Outcome::StoredAndMoved(a) => self.done(Some(a)),
        }
    }

    /// A cluster for a block was found. It has to be counted as used itself.
    pub fn block_found(&mut self, address: u64) -> (r: Step)
        requires
            old(self).wf(),
        ensures
            final(self).wf(),
            final(self).pending@ == old(self).pending@.push((address, 1u16)),
            final(self).pending@ == with_block(old(self).pending@, address),
            final(self).current == old(self).current,
            final(self).dropped@ == old(self).dropped@,
            r == Step::StoreWithBlock(old(self).current.0, old(self).current.1, address),
    {
        self.pending.push((address, 1));
        Step::StoreWithBlock(self.current.0, self.current.1, address)
    }
}

/// A cluster that a block moves away from is counted as free once: the first time it is dropped
/// it is put on the list, and a second time nothing is.
pub proof fn a_dropped_block_is_freed_once(a: Assignments, moved: u64)
    requires
        a.wf(),
    ensures
        a.dropped_after(Some(moved)).no_duplicates(),
        a.dropped_after(Some(moved)).contains(moved),
        !a.dropped@.contains(moved) ==> a.left_after(Some(moved)).last() == (moved, 0u16),
        a.dropped@.contains(moved) ==> a.left_after(Some(moved)) == a.pending@,
{
    if !a.dropped@.contains(moved) {
        let d = a.dropped@.push(moved);
        assert(d[a.dropped@.len() as int] == moved);
    }
}

/// What lowering the count of a cluster by one comes to.
#[derive(Clone, Copy, Debug, PartialEq, Eq, Structural)]
pub enum Release {
    /// The count is zero already.
    Unreferenced,
    /// The count becomes that, and the cluster stays in use.
    Shared(u16),
    /// The count becomes zero, and the cluster is free.
    Freed,
}

/// Lowers a count by one.
pub fn release(refcount: u16) -> (r: Release)
    ensures
        r == (if refcount == 0 {
            Release::Unreferenced
        } else if refcount == 1 {
            Release::Freed
        } else {
            Release::Shared((refcount - 1) as u16)
        }),
        r == released(refcount),
{
    if refcount == 0 {
        Release::Unreferenced
    } else if refcount == 1 {
        Release::Freed
    } else {
        Release::Shared(refcount - 1)
    }
}

/// The clusters of the file that are free, or that will be.
#[derive(Debug)]
pub struct Pools {
    /// Clusters that nothing refers to any more, but that the file may still refer to.
    pub unref_clusters: Vec<u64>,
    /// Clusters that can be used.
    pub avail_clusters: Vec<u64>,
    /// Clusters whose storage is given back once the file does not refer to them.
    pub punch_clusters: Vec<u64>,
}

impl Pools {
    /// Starts with the clusters that nothing refers to.
    pub fn new(avail_clusters: Vec<u64>) -> (r: Pools)
        ensures
            r.avail_clusters@ == avail_clusters@,
            r.unref_clusters@ == Seq::<u64>::empty(),
            r.punch_clusters@ == Seq::<u64>::empty(),
    {
        Pools { unref_clusters: Vec::new(), avail_clusters, punch_clusters: Vec::new() }
    }

    /// A cluster that can be used, if there is one. Without one, the file has to grow.
    pub fn get_new_cluster(&mut self) -> (r: Option<u64>)
        ensures
            final(self).unref_clusters@ == old(self).unref_clusters@,
            final(self).punch_clusters@ == old(self).punch_clusters@,
            (r, final(self)@) == old(self)@.after_get(),
            if old(self).avail_clusters@.len() == 0 {
                r is None && final(self).avail_clusters@ == old(self).avail_clusters@
            } else {
                r == Some(old(self).avail_clusters@.last()) && final(self).avail_clusters@ == old(self).avail_clusters@.drop_last()
            },
    {
        self.avail_clusters.pop()
    }

    /// Nothing refers to the cluster any more. It cannot be used before the file says so too.
    pub fn unref(&mut self, address: u64)
        ensures
            final(self).unref_clusters@ == old(self).unref_clusters@.push(address),
            final(self)@ == old(self)@.after_unref(seq![address]),
            final(self).avail_clusters@ == old(self).avail_clusters@,
            final(self).punch_clusters@ == old(self).punch_clusters@,
    {
        self.unref_clusters.push(address);
        assert(self.unref_clusters@ =~= old(self).unref_clusters@ + seq![address]);
    }

    /// Nothing refers to any of the clusters any more.
    pub fn unref_all(&mut self, addresses: &Vec<u64>)
        ensures
            final(self).unref_clusters@ == old(self).unref_clusters@ + addresses@,
            final(self)@ == old(self)@.after_unref(addresses@),
            final(self).avail_clusters@ == old(self).avail_clusters@,
            final(self).punch_clusters@ == old(self).punch_clusters@,
    {
        self.unref_clusters.extend_from_slice(addresses.as_slice());
        assert(self.unref_clusters@ =~= old(self).unref_clusters@ + addresses@);
    }

    /// A cluster that held compressed data was counted down from `refcount`. Gives the count to
    /// set, if there is one to set. A cluster that becomes free keeps its storage until the file
    /// does not refer to it.
    pub fn unref_compressed_cluster(&mut self, host: u64, refcount: u16) -> (r: Option<u16>)
        ensures
            final(self).avail_clusters@ == old(self).avail_clusters@,
            r == (if refcount == 0 {
                None
            } else {
                Some((refcount - 1) as u16)
            }),
            if refcount == 1 {
                &&& final(self).punch_clusters@ == old(self).punch_clusters@.push(host)
                &&& final(self).unref_clusters@ == old(self).unref_clusters@.push(host)
            } else {
                &&& final(self).punch_clusters@ == old(self).punch_clusters@
                &&& final(self).unref_clusters@ == old(self).unref_clusters@
            },
            (r, final(self)@) == old(self)@.after_count_down(host, refcount),
    {
        match release(refcount) {
            Release::Unreferenced => None,
            Release::Shared(n) => Some(n),
            Release::Freed => {
                self.punch_clusters.push(host);
                self.unref_clusters.push(host);
                assert(self.unref_clusters@ =~= old(self).unref_clusters@ + seq![host]);
                Some(0)
            },
        }
    }

    /// The file does not refer to freed clusters any more: gives those whose storage can go.
    pub fn take_punched(&mut self) -> (r: Vec<u64>)
        ensures
            r@ == old(self).punch_clusters@,
            (r@, final(self)@) == old(self)@.after_punch(),
            final(self).punch_clusters@ == Seq::<u64>::empty(),
            final(self).unref_clusters@ == old(self).unref_clusters@,
            final(self).avail_clusters@ == old(self).avail_clusters@,
    {
        let mut taken: Vec<u64> = Vec::new();
        std::mem::swap(&mut taken, &mut self.punch_clusters);
        taken
    }

    /// Everything is in the file: the clusters that nothing refers to can be used.
    pub fn synced(&mut self)
        ensures
            final(self).avail_clusters@ == old(self).avail_clusters@ + old(self).unref_clusters@,
            final(self)@ == old(self)@.after_sync(),
            final(self).unref_clusters@ == Seq::<u64>::empty(),
            final(self).punch_clusters@ == old(self).punch_clusters@,
    {
        let mut freed: Vec<u64> = Vec::new();
        std::mem::swap(&mut freed, &mut self.unref_clusters);
        self.avail_clusters.append(&mut freed);
    }
}

/// What is still to be set once a cluster for a block was found.
pub open spec fn with_block(pending: Seq<(u64, u16)>, address: u64) -> Seq<(u64, u16)> {
    pending.push((address, 1u16))
}

/// A cluster that a block is put into is counted as used by the block alone, and one that a block moves
/// away from as used by nothing; what was to be set before is still to be set, after that.
pub proof fn moved_blocks_are_counted(a: Assignments, address: u64, moved: u64)
    requires
        !a.dropped@.contains(moved),
    ensures
        with_block(a.pending@, address).drop_last() == a.pending@,
        with_block(a.pending@, address).last().0 == address,
        with_block(a.pending@, address).last().1 == 1,
        a.left_after(Some(moved)).drop_last() == a.pending@,
        a.left_after(Some(moved)).last().0 == moved,
        a.left_after(Some(moved)).last().1 == 0,
        a.left_after(None) == a.pending@,
        a.dropped_after(None) == a.dropped@,
{
    assert(with_block(a.pending@, address).drop_last() =~= a.pending@);
    assert(a.left_after(Some(moved)).drop_last() =~= a.pending@);
}

/// What lowering a count by one comes to.
pub open spec fn released(refcount: u16) -> Release {
    if refcount == 0 {
        Release::Unreferenced
    } else if refcount == 1 {
        Release::Freed
    } else {
        Release::Shared((refcount - 1) as u16)
    }
}

/// A count goes down by one; a cluster is free exactly where nothing refers to it any more.
pub proof fn counts_go_down_by_one(refcount: u16)
    ensures
        released(refcount) matches Release::Shared(n) ==> n + 1 == refcount && n > 0,
        released(refcount) is Freed <==> refcount - 1 == 0,
        released(refcount) is Unreferenced <==> refcount < 1,
{
}

/// The clusters of the file that are free, as sequences.
#[verifier::ext_equal]
pub struct PoolState {
    pub unref: Seq<u64>,
    pub avail: Seq<u64>,
    pub punch: Seq<u64>,
}

impl View for Pools {
    type V = PoolState;

    open spec fn view(&self) -> PoolState {
        PoolState {
            unref: self.unref_clusters@,
            avail: self.avail_clusters@,
            punch: self.punch_clusters@,
        }
    }
}

impl PoolState {
    pub open spec fn after_get(self) -> (Option<u64>, PoolState) {
        if self.avail.len() == 0 {
            (None, self)
        } else {
            (Some(self.avail.last()), PoolState { avail: self.avail.drop_last(), ..self })
        }
    }

    pub open spec fn after_unref(self, addresses: Seq<u64>) -> PoolState {
        PoolState { unref: self.unref + addresses, ..self }
    }

    pub open spec fn after_count_down(self, host: u64, refcount: u16) -> (Option<u16>, PoolState) {
        match released(refcount) {
            Release::Unreferenced => (None, self),
            Release::Shared(n) => (Some(n), self),
            Release::Freed => (
                Some(0),
                PoolState { punch: self.punch.push(host), ..self.after_unref(seq![host]) },
            ),
        }
    }

    pub open spec fn after_punch(self) -> (Seq<u64>, PoolState) {
        (self.punch, PoolState { punch: Seq::empty(), ..self })
    }

    pub open spec fn after_sync(self) -> PoolState {
        PoolState { unref: Seq::empty(), avail: self.avail + self.unref, ..self }
    }
}

/// A cluster that nothing refers to any more cannot be had before the file was synced, and can be had
/// after that, once; whatever is had was there, and is there no longer.
pub proof fn freed_clusters_wait_for_a_sync(p: PoolState, a: u64)
    requires
        !p.avail.contains(a),
        !p.unref.contains(a),
    ensures
        ({
            let freed = p.after_unref(seq![a]);
            let synced = freed.after_sync();
            &&& freed.after_get().0 != Some(a)
            &&& freed.avail == p.avail
            &&& synced.after_get() == (Some(a), PoolState { avail: p.avail + p.unref, ..synced })
            &&& synced.unref.len() == 0
            &&& synced.punch == p.punch
        }),
        p.after_get().0 is None <==> p.avail.len() == 0,
        p.after_get().0 matches Some(b) ==> p.avail.contains(b) && p.after_get().1.avail.push(b)
            == p.avail && p.after_get().1.unref == p.unref && p.after_get().1.punch == p.punch,
{
    let freed = p.after_unref(seq![a]);
    let synced = freed.after_sync();
    if p.avail.len() > 0 {
        assert(p.avail.contains(p.avail.last()));
        assert(p.avail.drop_last().push(p.avail.last()) =~= p.avail);
    }
    assert(synced.avail.last() == a);
    assert(synced.avail.drop_last() =~= p.avail + p.unref);
}

/// A cluster of compressed data gives its storage back exactly where the last reference to it goes, once,
/// and is then on its way to be used again.
pub proof fn storage_goes_with_the_last_reference(p: PoolState, host: u64, refcount: u16)
    ensures
        ({
            let (count, q) = p.after_count_down(host, refcount);
            &&& count is None <==> refcount == 0
            &&& count matches Some(n) ==> n + 1 == refcount
            &&& refcount != 1 ==> q == p
            &&& refcount == 1 ==> q.after_punch().0 == p.after_punch().0.push(host) && q.unref
                == p.unref.push(host) && q.avail == p.avail
            &&& q.after_punch().1.after_punch().0.len() == 0
            &&& q.after_punch().1.unref == q.unref
        }),
{
    assert(p.unref + seq![host] =~= p.unref.push(host));
}

} // verus!
