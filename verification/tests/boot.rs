//! The device tree, the resource manager's queue, and a boot from start to jump.

use droidvm_core::fdt::{be64, put_be64, Error, Fdt, Match};
use droidvm_core::rm;
use droidvm_core::rm::{Phase, Rm, Step};
use droidvm_core::shim;
use droidvm_core::shim::{Abi, Action, Boot, Death, Header, Parcel, Stage, Status};

/// Writes a flattened device tree.
struct Tree {
    body: Vec<u8>,
    names: Vec<u8>,
}

impl Tree {
    fn new() -> Tree {
        Tree { body: Vec::new(), names: Vec::new() }
    }

    fn word(&mut self, v: u32) {
        self.body.extend_from_slice(&v.to_be_bytes());
    }

    fn pad(&mut self) {
        while self.body.len() % 4 != 0 {
            self.body.push(0);
        }
    }

    fn begin(&mut self, name: &str) {
        self.word(1);
        self.body.extend_from_slice(name.as_bytes());
        self.body.push(0);
        self.pad();
    }

    fn end(&mut self) {
        self.word(2);
    }

    fn prop(&mut self, name: &str, value: &[u8]) {
        let off = self.names.len() as u32;
        self.names.extend_from_slice(name.as_bytes());
        self.names.push(0);
        self.word(3);
        self.word(value.len() as u32);
        self.word(off);
        self.body.extend_from_slice(value);
        self.pad();
    }

    fn finish(mut self) -> Vec<u8> {
        self.word(9);
        let body_off = 40u32;
        let names_off = body_off + self.body.len() as u32;
        let total = names_off + self.names.len() as u32;
        let mut out = Vec::new();
        for v in [
            0xd00d_feed,
            total,
            body_off,
            names_off,
            body_off,
            17,
            16,
            0,
            self.names.len() as u32,
            self.body.len() as u32,
        ] {
            out.extend_from_slice(&(v as u32).to_be_bytes());
        }
        out.extend_from_slice(&self.body);
        out.extend_from_slice(&self.names);
        out
    }
}

fn cells(values: &[u64]) -> Vec<u8> {
    values.iter().flat_map(|v| v.to_be_bytes()).collect()
}

/// A tree as the resource manager hands it over: the donation and the boot region in `/memory`,
/// and the resource manager's queue among other nodes of the hypervisor.
fn tree_with(memory: &[u8], queue: Option<&[u8]>) -> Vec<u8> {
    let mut t = Tree::new();
    t.begin("");
    t.prop("compatible", b"linux,dummy-virt\0");
    t.begin("memory");
    t.prop("device_type", b"memory\0");
    t.prop("reg", memory);
    t.end();
    t.begin("hypervisor");
    t.prop("compatible", b"gunyah-hypervisor-1.0\0gunyah-hypervisor\0");
    t.begin("gunyah-vm-config");
    t.prop("reg", &cells(&[0x11, 0x12]));
    t.end();
    if let Some(q) = queue {
        t.begin("gunyah-resource-mgr@0");
        t.prop("reg", q);
        t.prop(
            "compatible",
            b"gunyah-resource-manager-1-0\0gunyah-resource-manager\0",
        );
        t.end();
    }
    t.begin("memory");
    t.prop("reg", &cells(&[0x77, 0x78]));
    t.end();
    t.end();
    t.end();
    t.finish()
}

fn blob() -> Vec<u8> {
    tree_with(
        &cells(&[0x4000_0000, 0x10_0000, 0x8000_0000, 0x40_0000]),
        Some(&cells(&[0x2a, 0x2b])),
    )
}

#[test]
fn finds_the_resource_manager_and_not_its_neighbours() {
    let mut b = blob();
    let tree = Fdt::new(&mut b).unwrap();
    let (at, len) = tree
        .find_prop(Match::Compatible("gunyah-resource-manager"), "reg")
        .expect("the resource manager node is in the sample tree");
    assert_eq!(len, 16, "one address/size pair");
    let reg = tree.prop_bytes(at, 16).unwrap();
    assert_eq!(be64(&reg[0..8]).unwrap(), 0x2a, "tx capability");
    assert_eq!(be64(&reg[8..16]).unwrap(), 0x2b, "rx capability");
}

#[test]
fn a_missing_node_is_missing_rather_than_a_neighbour() {
    let mut b = blob();
    let tree = Fdt::new(&mut b).unwrap();
    assert!(tree
        .find_prop(Match::Compatible("nothing-like-this"), "reg")
        .is_err());
    assert!(tree.find_prop(Match::RootChild("no-such-node"), "reg").is_err());
}

#[test]
fn the_window_goes_in_the_first_range_and_the_rest_are_emptied() {
    let mut b = blob();
    let mut tree = Fdt::new(&mut b).unwrap();
    let (_, len) = tree.find_prop(Match::RootChild("memory"), "reg").unwrap();
    assert_eq!(len, 32, "the sample tree has two ranges");

    tree.set_memory_window(0x8040_0000, 0x4000_0000).unwrap();

    let (at, len) = tree.find_prop(Match::RootChild("memory"), "reg").unwrap();
    assert_eq!(len, 32, "the property keeps its length, so nothing moved");
    let reg = tree.prop_bytes(at, 32).unwrap();
    assert_eq!(be64(&reg[0..8]).unwrap(), 0x8040_0000);
    assert_eq!(be64(&reg[8..16]).unwrap(), 0x4000_0000);
    assert_eq!(be64(&reg[16..24]).unwrap(), 0);
    assert_eq!(be64(&reg[24..32]).unwrap(), 0);
}

#[test]
fn nothing_of_what_was_there_survives() {
    let mut b = blob();
    let mut tree = Fdt::new(&mut b).unwrap();
    tree.set_memory_window(0x8040_0000, 0x4000_0000).unwrap();
    let (at, len) = tree.find_prop(Match::RootChild("memory"), "reg").unwrap();
    let reg = tree.prop_bytes(at, len).unwrap();
    for pair in reg.chunks(16).skip(1) {
        assert_eq!(be64(&pair[8..16]).unwrap(), 0, "a leftover range is still RAM");
    }
    assert_ne!(be64(&reg[0..8]).unwrap(), 0x4000_0000, "the donation is gone");
    assert_ne!(be64(&reg[0..8]).unwrap(), 0x8000_0000, "the boot region is gone");
}

#[test]
fn a_corrupt_blob_is_refused_rather_than_walked() {
    let mut b = blob();
    b[0] = 0;
    assert!(Fdt::new(&mut b).is_err(), "bad magic");

    let mut b = blob();
    b[36..40].copy_from_slice(&0xffff_0000u32.to_be_bytes());
    assert!(Fdt::new(&mut b).is_err(), "truncated structure block");
}

#[test]
fn each_fault_of_a_tree_has_its_error() {
    let mut b = blob();
    b[0] = 0;
    assert_eq!(Fdt::new(&mut b).err(), Some(Error::BadMagic));
    assert_eq!(Fdt::new(&mut [0u8; 3]).err(), Some(Error::Truncated));
    assert_eq!(Fdt::new(&mut blob()[..39]).err(), Some(Error::Truncated));

    // A tag that means nothing.
    let mut b = blob();
    b[40..44].copy_from_slice(&7u32.to_be_bytes());
    let tree = Fdt::new(&mut b).unwrap();
    assert_eq!(tree.find_prop(Match::RootChild("memory"), "reg").err(), Some(Error::BadTag));

    // More nodes inside each other than are followed.
    let mut t = Tree::new();
    for _ in 0..25 {
        t.begin("n");
    }
    let mut b = t.finish();
    let tree = Fdt::new(&mut b).unwrap();
    assert_eq!(tree.find_prop(Match::RootChild("memory"), "reg").err(), Some(Error::TooDeep));

    let mut b = blob();
    let tree = Fdt::new(&mut b).unwrap();
    assert_eq!(tree.find_prop(Match::RootChild("chosen"), "reg").err(), Some(Error::NotFound));
    assert_eq!(tree.prop_bytes(100_000, 8).err(), Some(Error::Truncated));
    assert_eq!(be64(&[0; 7]).err(), Some(Error::Truncated));
    assert_eq!(put_be64(&mut [0; 7], 1).err(), Some(Error::Truncated));
}

#[test]
fn a_memory_node_of_an_odd_size_is_left_alone() {
    for n in [0usize, 8, 24] {
        let mut b = tree_with(&vec![5; n], None);
        let before = b.clone();
        let mut tree = Fdt::new(&mut b).unwrap();
        assert_eq!(tree.set_memory_window(1, 2).err(), Some(Error::Truncated));
        assert_eq!(b, before);
    }
}

#[test]
fn only_the_property_is_overwritten() {
    let mut b = blob();
    let before = b.clone();
    let mut tree = Fdt::new(&mut b).unwrap();
    let (at, len) = tree.find_prop(Match::RootChild("memory"), "reg").unwrap();
    tree.set_memory_window(3, 4).unwrap();
    assert_eq!(b[..at], before[..at]);
    assert_eq!(b[at + len..], before[at + len..]);
}

#[test]
fn numbers_are_written_big_endian() {
    let mut b = [0u8; 8];
    put_be64(&mut b, 0x0102_0304_0506_0708).unwrap();
    assert_eq!(b, [1, 2, 3, 4, 5, 6, 7, 8]);
    assert_eq!(be64(&b).unwrap(), 0x0102_0304_0506_0708);
}

fn reply(seq: u16, code: u32) -> Vec<u8> {
    let mut m = vec![0x21, 0x02];
    m.extend_from_slice(&seq.to_le_bytes());
    m.extend_from_slice(&0x5100_0011u32.to_le_bytes());
    m.extend_from_slice(&code.to_le_bytes());
    m
}

fn arrive(q: &mut Rm, m: &[u8]) -> Step {
    q.rxbuf[..m.len()].copy_from_slice(m);
    q.received(0, m.len() as u64)
}

#[test]
fn a_request_is_laid_out_as_the_resource_manager_reads_it() {
    let mut q = Rm::new(0x2a, 0x2b);
    assert_eq!(q.mem_accept(0x1234, 0x8040_0000, 0x20_0000), Step::Receive);
    // Something stale is in the queue.
    assert_eq!(arrive(&mut q, &[9; 20]), Step::Receive);
    assert_eq!(q.received(0, 0), Step::Send(48));
    let mut want = vec![0x21, 0x01, 1, 0, 0x11, 0x00, 0x00, 0x51];
    want.extend_from_slice(&[0x34, 0x12, 0, 0, 0, 2, 0x90, 0]);
    want.extend_from_slice(&[0; 8]);
    want.extend_from_slice(&[1, 0, 0, 0]);
    want.extend_from_slice(&0x8040_0000u64.to_le_bytes());
    want.extend_from_slice(&0x20_0000u64.to_le_bytes());
    want.extend_from_slice(&[0; 4]);
    assert_eq!(&q.txbuf[..48], &want[..]);
    assert_eq!(q.sent(0), Step::Receive);
    assert_eq!(arrive(&mut q, &reply(1, 0)), Step::Finished(Ok(())));
    assert!(matches!(q.phase, Phase::Idle));
}

#[test]
fn a_reply_to_another_request_is_not_an_answer() {
    let mut q = Rm::new(1, 2);
    q.mem_accept(5, 0, 0x1000);
    q.received(1, 0);
    q.sent(0);
    assert_eq!(arrive(&mut q, &reply(7, 0)), Step::Receive);
    assert_eq!(q.trace.wrong_seq, 1);
    assert_eq!(q.trace.last_seq, 7);
    // Its own request does not answer it either.
    let own = q.txbuf[..48].to_vec();
    assert_eq!(arrive(&mut q, &own), Step::Receive);
    assert_eq!(q.trace.received, 2);
    assert_eq!(q.trace.last_hdr[1], 1);
    assert_eq!(
        arrive(&mut q, &reply(1, 22)),
        Step::Finished(Err(rm::Error::Refused(22)))
    );
}

#[test]
fn a_send_that_fails_ends_the_call() {
    let mut q = Rm::new(1, 2);
    q.mem_accept(5, 0, 0x1000);
    q.received(1, 0);
    assert_eq!(q.sent(60), Step::Finished(Err(rm::Error::Send(60))));
}

#[test]
fn silence_ends_in_a_timeout() {
    let mut q = Rm::new(1, 2);
    q.mem_accept(5, 0, 0x1000);
    q.received(1, 0);
    q.sent(0);
    assert!(matches!(q.phase, Phase::Waiting(n) if n == rm::REPLY_SPINS));
    q.phase = Phase::Waiting(2);
    assert_eq!(q.received(60, 0), Step::Receive);
    assert_eq!(q.received(60, 0), Step::Finished(Err(rm::Error::Timeout)));
    assert_eq!(q.trace.last_err, 60);
    assert_eq!(q.trace.received, 0);
}

#[test]
fn draining_counts_what_it_drops() {
    let mut q = Rm::new(1, 2);
    assert_eq!(q.drain(), Step::Receive);
    assert_eq!(q.received(0, 12), Step::Receive);
    assert_eq!(q.received(0, 40), Step::Receive);
    assert_eq!(q.received(0, 0), Step::Drained(2));
}

fn abi() -> Abi {
    Abi {
        header_magic: 0x1122,
        handoff_magic: 0x3344,
        version: 3,
        max_parcels: 4,
        flag_probe_exec: 1,
        flag_no_dt_rewrite: 2,
    }
}

fn header(flags: u32) -> Header {
    Header { magic: 0x1122, version: 3, flags, payload: 0x8040_0000, handoff: 0x9000 }
}

fn parcels() -> Vec<Parcel> {
    vec![
        Parcel { handle: 7, base: 0x8040_0000, size: 0x1000_0000 },
        Parcel { handle: 8, base: 0x9040_0000, size: 0x3000_0000 },
    ]
}

/// A boot that has read its parcels and the tree.
fn drained(flags: u32, ps: Vec<Parcel>) -> Boot {
    let (mut boot, action) = Boot::start(abi(), header(flags));
    assert_eq!(action, Action::CheckHandoff(0x9000));
    assert_eq!(boot.handoff_checked(0x3344, 3), Action::Poll(false));
    assert_eq!(boot.polled(true), Action::Count);
    assert_eq!(boot.counted(ps.len() as u32), Action::ReadTree);
    let mut b = blob();
    assert_eq!(boot.tree_read(ps, &mut b), Action::Drain(0x2a, 0x2b));
    boot
}

#[test]
fn a_boot_accepts_its_parcels_and_jumps() {
    let mut boot = drained(0, parcels());
    assert_eq!(boot.drained(), Action::Accept(parcels()[0]));
    assert_eq!(boot.accepted(Ok(())), Action::Accept(parcels()[1]));
    assert_eq!(boot.accepted(Ok(())), Action::Rewrite(0x8040_0000, 0x4000_0000));
    let mut b = blob();
    assert_eq!(boot.rewrite(&mut b), Action::Jump(0x8040_0000));
    let tree = Fdt::new(&mut b).unwrap();
    let (at, _) = tree.find_prop(Match::RootChild("memory"), "reg").unwrap();
    assert_eq!(be64(tree.prop_bytes(at, 8).unwrap()).unwrap(), 0x8040_0000);
    assert_eq!(be64(tree.prop_bytes(at + 8, 8).unwrap()).unwrap(), 0x4000_0000);
    assert_eq!(
        boot.status,
        vec![Status::Running, Status::Accepted, Status::DtDone, Status::Jumping]
    );
}

#[test]
fn a_boot_without_parcels_jumps_at_once() {
    let (mut boot, _) = Boot::start(abi(), header(0));
    boot.handoff_checked(0x3344, 3);
    boot.polled(true);
    assert_eq!(boot.counted(0), Action::Jump(0x8040_0000));
}

#[test]
fn the_last_page_is_tried_when_asked_for() {
    let mut boot = drained(3, parcels());
    boot.drained();
    boot.accepted(Ok(()));
    assert_eq!(boot.accepted(Ok(())), Action::Probe(0xc040_0000 - 0x1000));
    assert_eq!(boot.probed(), Action::Jump(0x8040_0000));
}

#[test]
fn every_death_has_its_cause() {
    let mut bad = header(0);
    bad.magic = 0;
    assert_eq!(Boot::start(abi(), bad).1, Action::Hang);
    let mut bad = header(0);
    bad.handoff = 0;
    assert_eq!(Boot::start(abi(), bad).1, Action::Hang);
    let (mut boot, _) = Boot::start(abi(), header(0));
    assert_eq!(boot.handoff_checked(0x3344, 4), Action::Hang);

    let mut none = header(0);
    none.payload = 0;
    let (mut boot, _) = Boot::start(abi(), none);
    assert_eq!(boot.handoff_checked(0x3344, 3), Action::Die(0, Death::NoPayload));

    let (mut boot, _) = Boot::start(abi(), header(0));
    boot.handoff_checked(0x3344, 3);
    for i in 1..=4096u64 {
        assert_eq!(boot.polled(false), Action::Poll(i == 4096));
    }
    boot.stage = Stage::Ready(shim::READY_SPINS);
    assert_eq!(boot.polled(false), Action::Die(0, Death::NeverReady));

    let (mut boot, _) = Boot::start(abi(), header(0));
    boot.handoff_checked(0x3344, 3);
    boot.polled(true);
    assert_eq!(boot.counted(5), Action::Die(5, Death::TooManyParcels));

    let (mut boot, _) = Boot::start(abi(), header(0));
    boot.handoff_checked(0x3344, 3);
    boot.polled(true);
    boot.counted(2);
    assert_eq!(boot.no_tree(), Action::Die(0, Death::NotATree));

    assert_eq!(shim::capabilities(&mut [0; 64]).err(), Some((0, Death::BadTree)));
    let mut b = tree_with(&cells(&[1, 2]), None);
    assert_eq!(shim::capabilities(&mut b).err(), Some((0, Death::NoResourceManager)));
    let mut b = tree_with(&cells(&[1, 2]), Some(&[0; 12]));
    assert_eq!(shim::capabilities(&mut b).err(), Some((12, Death::ShortReg)));

    for (e, want) in [
        (rm::Error::Refused(22), Action::Die(22, Death::Refused)),
        (rm::Error::Timeout, Action::Die(0, Death::NoReply)),
        (rm::Error::Send(60), Action::Die(60, Death::CouldNotSend)),
    ] {
        let mut boot = drained(0, parcels());
        boot.drained();
        assert_eq!(boot.accepted(Err(e)), want);
        assert_eq!(boot.accepted, 0);
        assert_eq!(boot.status, vec![Status::Running, Status::Error]);
    }

    let mut apart = parcels();
    apart[1].base += 0x1000;
    let mut boot = drained(0, apart);
    boot.drained();
    boot.accepted(Ok(()));
    assert_eq!(boot.accepted(Ok(())), Action::Die(0x9040_1000, Death::NotJoined));

    let mut boot = drained(0, parcels());
    boot.drained();
    boot.accepted(Ok(()));
    boot.accepted(Ok(()));
    let mut b = tree_with(&[0; 8], None);
    assert!(matches!(boot.rewrite(&mut b), Action::Die(_, Death::NoMemoryNode)));

    assert_eq!(Death::NotJoined.text(), "the parcels do not join up");
    assert_eq!(
        Death::Panicked.text(),
        "shim panicked (a bounds check fired: the device tree is not what we assumed)"
    );
}

#[test]
fn the_console_shows_hexadecimal() {
    assert_eq!(shim::uart_hex(0), b"0x0");
    assert_eq!(shim::uart_hex(0xdead_beef), b"0xdeadbeef");
    assert_eq!(shim::uart_hex(u64::MAX), b"0xffffffffffffffff");
}

#[test]
fn cache_lines_cover_the_bytes() {
    assert_eq!(shim::cache_lines(0x1000, 64), (0x1000, 1));
    assert_eq!(shim::cache_lines(0x103f, 2), (0x1000, 2));
    assert_eq!(shim::cache_lines(0x1000, 0), (0x1000, 0));
}

#[test]
fn a_message_is_cut_to_its_buffer() {
    let mut short = [9u8; 4];
    shim::say(&mut short, "hello");
    assert_eq!(&short, b"hel\0");
    let mut long = [9u8; 8];
    shim::say(&mut long, "hello");
    assert_eq!(&long, b"hello\0\x09\x09");
}

#[test]
fn a_tree_declares_a_plausible_size() {
    let size = |magic: u32, total: u32| {
        let mut b = [0u8; 8];
        b[..4].copy_from_slice(&magic.to_be_bytes());
        b[4..].copy_from_slice(&total.to_be_bytes());
        shim::fdt_total_size(&b)
    };
    assert_eq!(size(0xd00d_feed, 40), Some(40));
    assert_eq!(size(0xd00d_feed, 0x80_0000), Some(0x80_0000));
    assert_eq!(size(0xd00d_feed, 39), None);
    assert_eq!(size(0xd00d_feed, 0x80_0001), None);
    assert_eq!(size(0xd00d_fee0, 40), None);
}
