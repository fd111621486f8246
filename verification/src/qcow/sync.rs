//! The order in which changed tables go to the file.

use vstd::prelude::*;

use crate::qcow::counts::{CountBlock, RefCounts};
use crate::qcow::map::{Mapping, TableView};

verus! {

/// What has to be done next to bring the file up to date.
#[derive(Clone, Copy, Debug, PartialEq, Eq, Structural)]
pub enum Action {
    /// Write the L2 table for that L1 index to that offset.
    WriteTable(usize, u64),
    /// Write the block of counts with that index to that offset.
    WriteBlock(usize, u64),
    /// Make sure that everything that was written, and the length, is in the file.
    SyncAll,
    /// Write the L1 table.
    WriteL1,
    /// Write the refcount table.
    WriteRefcountTable,
    /// Make sure that the tables are in the file.
    SyncData,
    /// Give the storage of freed clusters back.
    Punch,
}

/// How far bringing the file up to date has come. The tables that are pointed at go first, and
/// the tables that point at them only when those are in the file.
#[derive(Clone, Copy, Debug, PartialEq, Eq, Structural)]
pub enum Progress {
    Tables,
    Blocks,
    Synced,
    /// The L1 table was written.
    L1,
    /// The refcount table was written.
    Last,
    Punching,
    Done,
}

/// An L2 table was changed since it was last written.
pub open spec fn table_left(m: Mapping) -> bool {
    exists|k: int| #[trigger] m.cached().contains_key(k) && m.cached()[k].dirty
}

/// A block of counts was changed since it was last written.
pub open spec fn block_left(c: RefCounts) -> bool {
    exists|b: usize| #[trigger] c.blocks@.contains_key(b) && c.blocks@[b].dirty
}

/// What is done next at `p`, and how far that is, once no L2 table and no block is left that was
/// changed.
pub open spec fn next_action(m: Mapping, c: RefCounts, p: Progress) -> Option<(Action, Progress)> {
    match p {
        Progress::Tables | Progress::Blocks => Some((Action::SyncAll, Progress::Synced)),
        Progress::Synced => if m.l1_dirty {
            Some((Action::WriteL1, Progress::L1))
        } else if c.table_dirty {
            Some((Action::WriteRefcountTable, Progress::Last))
        } else {
            Some((Action::Punch, Progress::Done))
        },
        Progress::L1 => if c.table_dirty {
            Some((Action::WriteRefcountTable, Progress::Last))
        } else {
            Some((Action::SyncData, Progress::Punching))
        },
        Progress::Last => Some((Action::SyncData, Progress::Punching)),
        Progress::Punching => Some((Action::Punch, Progress::Done)),
        Progress::Done => None,
    }
}

/// Says what has to be done next. While L2 tables are left that were changed, that is to write one
/// of them, and after that the same goes for blocks of counts; [`performed`] is told what was done.
pub fn sync_caches(m: &Mapping, c: &RefCounts, p: Progress) -> (r: Option<(Action, Progress)>)
    requires
        m.wf(),
        c.wf(),
    ensures
        if p is Tables && table_left(*m) {
            exists|k: int| #[trigger]
                m.cached().contains_key(k) && m.cached()[k].dirty && r == Some(
                    (Action::WriteTable(k as usize, m.l1_table@[k]), Progress::Tables),
                )
        } else if (p is Tables || p is Blocks) && block_left(*c) {
            exists|b: usize| #[trigger]
                c.blocks@.contains_key(b) && c.blocks@[b].dirty && r == Some(
                    (Action::WriteBlock(b, c.table@[b as int]), Progress::Blocks),
                )
        } else {
            r == next_action(*m, *c, p)
        },
        follows(*m, *c, p, r),
{
    match p {
        Progress::Tables => match m.next_dirty() {
            Some((k, at)) => Some((Action::WriteTable(k, at), Progress::Tables)),
            None => Some(blocks(c)),
        },
        Progress::Blocks => Some(blocks(c)),
        Progress::Synced => if m.l1_dirty {
            Some((Action::WriteL1, Progress::L1))
        } else if c.table_dirty {
            Some((Action::WriteRefcountTable, Progress::Last))
        } else {
            Some((Action::Punch, Progress::Done))
        },
        Progress::L1 => if c.table_dirty {
            Some((Action::WriteRefcountTable, Progress::Last))
        } else {
            Some((Action::SyncData, Progress::Punching))
        },
        Progress::Last => Some((Action::SyncData, Progress::Punching)),
        Progress::Punching => Some((Action::Punch, Progress::Done)),
        Progress::Done => None,
    }
}

/// A block that was changed goes to the file, or all of them are there.
fn blocks(c: &RefCounts) -> (r: (Action, Progress))
    requires
        c.wf(),
    ensures
        if block_left(*c) {
            exists|b: usize| #[trigger]
                c.blocks@.contains_key(b) && c.blocks@[b].dirty && r == (
                    Action::WriteBlock(b, c.table@[b as int]),
                    Progress::Blocks,
                )
        } else {
            r == (Action::SyncAll, Progress::Synced)
        },
{
    match c.next_dirty(0) {
        Some((b, at)) => (Action::WriteBlock(b, at), Progress::Blocks),
        None => (Action::SyncAll, Progress::Synced),
    }
}

/// What was done is kept in mind: a table that was written is not written again until it changes.
pub fn performed(m: &mut Mapping, c: &mut RefCounts, action: Action)
    requires
        old(m).wf(),
        old(c).wf(),
    ensures
        final(m).wf(),
        final(c).wf(),
        final(m).geometry == old(m).geometry,
        final(m).has_backing == old(m).has_backing,
        final(m).l1_table@ == old(m).l1_table@,
        final(m).l1_dirty == (old(m).l1_dirty && !(action is WriteL1)),
        (final(m).l1_dirty, final(c).table_dirty) == pointers_after(
            old(m).l1_dirty,
            old(c).table_dirty,
            action,
        ),
        final(m).cached() == (match action {
            Action::WriteTable(k, _) => if old(m).cached().contains_key(k as int) {
                old(m).cached().insert(
                    k as int,
                    TableView { dirty: false, ..old(m).cached()[k as int] },
                )
            } else {
                old(m).cached()
            },
            _ => old(m).cached(),
        }),
        final(m).cached() == tables_after(old(m).cached(), action),
        final(c).blocks@ == blocks_after(old(c).blocks@, action),
        final(c).same_shape(old(c)),
        final(c).table@ == old(c).table@,
        final(c).table_dirty == (old(c).table_dirty && !(action is WriteRefcountTable)),
        final(c).blocks@ == (match action {
            Action::WriteBlock(b, _) => if old(c).blocks@.contains_key(b) {
                old(c).blocks@.insert(
                    b,
                    CountBlock { counts: old(c).blocks@[b].counts, dirty: false },
                )
            } else {
                old(c).blocks@
            },
            _ => old(c).blocks@,
        }),
{
    match action {
        Action::WriteTable(k, _) => {
            if m.table_values(k).is_some() {
                m.mark_clean(k);
            }
        },
        Action::WriteBlock(b, _) => c.mark_clean(b),
        Action::WriteL1 => {
            m.l1_dirty = false;
        },
        Action::WriteRefcountTable => c.table_written(),
        _ => {},
    }
}

/// How many steps are left at least until the file is up to date.
pub open spec fn rank(p: Progress) -> int {
    match p {
        Progress::Tables => 6,
        Progress::Blocks => 5,
        Progress::Synced => 4,
        Progress::L1 => 3,
        Progress::Last => 2,
        Progress::Punching => 1,
        Progress::Done => 0,
    }
}

/// The L1 table, the refcount table and the storage of freed clusters are touched only once
/// everything that the tables point at is in the file; storage is given back last of all, and where
/// one of the two tables was written, only after it is in the file.
pub proof fn pointers_go_last(m: Mapping, c: RefCounts, p: Progress)
    requires
        next_action(m, c, p) is Some,
    ensures
        ({
            let (a, q) = next_action(m, c, p)->0;
            &&& rank(q) < rank(p)
            &&& (a is WriteL1 || a is WriteRefcountTable) ==> rank(p) <= rank(Progress::Synced)
            &&& a is SyncAll <==> q is Synced
            &&& a is SyncData <==> q is Punching
            &&& a is Punch <==> q is Done
            &&& a is Punch ==> p is Punching || (p is Synced && !m.l1_dirty && !c.table_dirty)
        }),
{
}

/// A table that was written is left no more, and the others are as they were.
pub proof fn every_table_is_written_once(before: Mapping, after: Mapping, k: int, other: int)
    requires
        before.cached().contains_key(k),
        after.cached() == before.cached().insert(
            k,
            TableView { dirty: false, ..before.cached()[k] },
        ),
        before.cached().contains_key(other),
    ensures
        !after.cached()[k].dirty,
        after.cached().contains_key(other),
        after.cached()[other].values == before.cached()[other].values,
        other != k ==> after.cached()[other].dirty == before.cached()[other].dirty,
{
}

/// Once everything that they point at is in the file, the L1 table is written exactly where it was
/// changed, and after it the refcount table exactly where that was; where one of them was written, the
/// file is synced once more before storage is given back.
pub proof fn changed_tables_are_written(m: Mapping, c: RefCounts)
    ensures
        next_action(m, c, Progress::Tables) == Some((Action::SyncAll, Progress::Synced)),
        next_action(m, c, Progress::Blocks) == Some((Action::SyncAll, Progress::Synced)),
        ({
            let (a, p) = next_action(m, c, Progress::Synced)->0;
            let (b, q) = next_action(m, c, p)->0;
            let (d, _) = next_action(m, c, q)->0;
            &&& next_action(m, c, Progress::Synced) is Some
            &&& a is WriteL1 <==> m.l1_dirty
            &&& a is WriteRefcountTable <==> !m.l1_dirty && c.table_dirty
            &&& a is WriteL1 || a is WriteRefcountTable || (a is Punch && p is Done)
            &&& a is WriteL1 ==> (b is WriteRefcountTable <==> c.table_dirty)
            &&& a is WriteL1 && !c.table_dirty ==> b is SyncData
            &&& a is WriteRefcountTable ==> b is SyncData
            &&& a is WriteL1 && c.table_dirty ==> d is SyncData
        }),
        next_action(m, c, Progress::Punching) == Some((Action::Punch, Progress::Done)),
        next_action(m, c, Progress::Done) is None,
{
}

/// The L2 tables in memory after something was done.
pub open spec fn tables_after(tables: Map<int, TableView>, action: Action) -> Map<int, TableView> {
    match action {
        Action::WriteTable(k, _) => if tables.contains_key(k as int) {
            tables.insert(k as int, TableView { dirty: false, ..tables[k as int] })
        } else {
            tables
        },
        _ => tables,
    }
}

/// The blocks in memory after something was done.
pub open spec fn blocks_after(blocks: Map<usize, CountBlock>, action: Action) -> Map<
    usize,
    CountBlock,
> {
    match action {
        Action::WriteBlock(b, _) => if blocks.contains_key(b) {
            blocks.insert(b, CountBlock { counts: blocks[b].counts, dirty: false })
        } else {
            blocks
        },
        _ => blocks,
    }
}

/// What was written has no change that is not in the file, and only that; what it holds stays, and what
/// was not written is as it was.
pub proof fn what_was_written_is_clean(
    tables: Map<int, TableView>,
    blocks: Map<usize, CountBlock>,
    action: Action,
    k: usize,
    b: usize,
)
    requires
        tables.contains_key(k as int),
        blocks.contains_key(b),
    ensures
        ({
            let t = tables_after(tables, action);
            let c = blocks_after(blocks, action);
            let wrote_table = action matches Action::WriteTable(i, _) && i == k;
            let wrote_block = action matches Action::WriteBlock(i, _) && i == b;
            &&& t.contains_key(k as int) && t[k as int].values == tables[k as int].values
            &&& t[k as int].dirty <==> tables[k as int].dirty && !wrote_table
            &&& c.contains_key(b) && c[b].counts == blocks[b].counts
            &&& c[b].dirty <==> blocks[b].dirty && !wrote_block
            &&& t.dom() == tables.dom() && c.dom() == blocks.dom()
        }),
{
    assert(tables_after(tables, action).dom() =~= tables.dom());
    assert(blocks_after(blocks, action).dom() =~= blocks.dom());
}

/// Whether the L1 table and the refcount table are changed after something was done.
pub open spec fn pointers_after(l1: bool, counts: bool, action: Action) -> (bool, bool) {
    (l1 && !(action is WriteL1), counts && !(action is WriteRefcountTable))
}

/// What may be done next.
pub open spec fn follows(
    m: Mapping,
    c: RefCounts,
    p: Progress,
    r: Option<(Action, Progress)>,
) -> bool {
    match r {
        Some((Action::WriteTable(k, at), q)) => {
            &&& p is Tables && q is Tables
            &&& m.cached().contains_key(k as int) && m.cached()[k as int].dirty
            &&& at == m.l1_table@[k as int]
        },
        Some((Action::WriteBlock(b, at), q)) => {
            &&& (p is Tables && !table_left(m) || p is Blocks) && q is Blocks
            &&& c.blocks@.contains_key(b) && c.blocks@[b].dirty
            &&& at == c.table@[b as int]
        },
        _ => r == next_action(m, c, p) && (p is Tables ==> !table_left(m)) && (p is Tables
            || p is Blocks ==> !block_left(c)),
    }
}

/// Bringing a file up to date from the start writes only what was changed, each table where the table that
/// points at it says, and goes on to what points at them only when none is left. A table that points at
/// others is changed no more once it was written, and stays as it is whatever else is done.
pub proof fn changes_go_where_they_belong(
    m: Mapping,
    c: RefCounts,
    r: Option<(Action, Progress)>,
    action: Action,
    k: int,
    b: usize,
)
    requires
        follows(m, c, Progress::Tables, r),
    ensures
        r is Some,
        r matches Some((Action::WriteTable(i, at), _)) ==> m.cached()[i as int].dirty && at
            == m.l1_table@[i as int],
        r matches Some((Action::WriteBlock(i, at), _)) ==> c.blocks@[i].dirty && at
            == c.table@[i as int],
        (r matches Some((a, _)) && (a is SyncAll || a is WriteBlock)) ==> (m.cached().contains_key(k)
            ==> !m.cached()[k].dirty),
        (r matches Some((a, _)) && a is SyncAll) ==> (c.blocks@.contains_key(b)
            ==> !c.blocks@[b].dirty),
        r matches Some((a, _)) ==> a is WriteTable || a is WriteBlock || a is SyncAll,
        !pointers_after(true, true, Action::WriteL1).0,
        pointers_after(true, true, Action::WriteL1).1,
        !pointers_after(true, true, Action::WriteRefcountTable).1,
        pointers_after(true, true, Action::WriteRefcountTable).0,
        !pointers_after(false, true, action).0 && !pointers_after(true, false, action).1,
        !(action is WriteL1 || action is WriteRefcountTable) ==> pointers_after(true, true, action)
            == (true, true),
{
}

} // verus!
