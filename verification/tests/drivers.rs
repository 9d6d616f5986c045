//! The device tree, and the conversations that drivers have with devices and with the
//! kernel.
use jungey::blk::{
    attach, attached, capacity_sectors, info, info_reply, poll, read_reply, reply_tag,
    request_count, stale_replies, Client, Poll,
};
use jungey::blkdrv::{answer, parse, Ask, Woken};
use jungey::bytes::{
    get_be16, get_be32, get_u16, get_u32, get_u64, put_u32, put_u64, same_bytes, same_text,
    set_bytes, set_u16, set_u32, set_u64, set_u8, set_zeros,
};
use jungey::devices::{DeviceNode, Slot, MAGIC_VALUE};
use jungey::dtb::{align4, Event, Fdt, Walker};
use jungey::ipc::Channels;
use jungey::sched::Scheduler;
use jungey::uart::{set_base, write_str, Uart};
use jungey::user::{errname, outcome, role, wait_until, write_dec, write_hex, Role};
use jungey::virtio::{
    claims_interrupt, have_disk, irq_count, next_block, Host, VirtioBlk, Waiting,
};
use jungey::virtq::{
    blk_finish, blk_prepare, place, publish, used_idx, write_desc, Attach, Stage, BLK_T_IN,
    BLK_T_OUT, STATUS,
};

// ---- the device tree ----

struct Tree {
    body: Vec<u8>,
    strings: Vec<u8>,
}

impl Tree {
    fn word(&mut self, v: u32) {
        self.body.extend_from_slice(&v.to_be_bytes());
    }

    fn pad(&mut self) {
        while self.body.len() % 4 != 0 {
            self.body.push(0);
        }
    }

    fn begin(&mut self, name: &str) {
        self.word(1);
        self.body.extend_from_slice(name.as_bytes());
        self.body.push(0);
        self.pad();
    }

    fn end(&mut self) {
        self.word(2);
    }

    fn prop(&mut self, name: &str, value: &[u8]) {
        let at = self.strings.len() as u32;
        self.strings.extend_from_slice(name.as_bytes());
        self.strings.push(0);
        self.word(3);
        self.word(value.len() as u32);
        self.word(at);
        self.body.extend_from_slice(value);
        self.pad();
    }

    fn blob(&self) -> Vec<u8> {
        let mut out = vec![0u8; 40];
        let strings_off = 40 + self.body.len();
        let total = strings_off + self.strings.len();
        out[..4].copy_from_slice(&0xd00d_feedu32.to_be_bytes());
        out[4..8].copy_from_slice(&(total as u32).to_be_bytes());
        out[8..12].copy_from_slice(&40u32.to_be_bytes());
        out[12..16].copy_from_slice(&(strings_off as u32).to_be_bytes());
        out[36..40].copy_from_slice(&(self.body.len() as u32).to_be_bytes());
        out.extend_from_slice(&self.body);
        out.extend_from_slice(&self.strings);
        out
    }
}

fn tree() -> Vec<u8> {
    let mut t = Tree { body: Vec::new(), strings: Vec::new() };
    t.begin("");
    t.prop("#address-cells", &2u32.to_be_bytes());
    t.prop("#size-cells", &2u32.to_be_bytes());
    t.prop("model", b"linux,dummy-virt\0");
    t.word(4);
    t.begin("memory@40000000");
    t.prop("device_type", b"memory\0");
    let mut reg = Vec::new();
    for v in [0x4000_0000u64, 0x2000_0000, 0x9000_0000, 0, 0x1_0000_0000, 0x1000] {
        reg.extend_from_slice(&v.to_be_bytes());
    }
    t.prop("reg", &reg);
    t.end();
    t.begin("psci");
    t.prop("compatible", b"arm,psci-1.0\0arm,psci-0.2\0arm,psci\0");
    t.prop("method", b"hvc\0");
    t.end();
    t.begin("cpus");
    for i in 0..2u32 {
        t.begin("cpu");
        t.prop("device_type", b"cpu\0");
        t.prop("reg", &(i * 0x100).to_be_bytes());
        t.end();
    }
    t.end();
    for i in 0..2u64 {
        t.begin("virtio_mmio");
        t.prop("interrupts", &[0, 0, 0, 0, 0, 0, 0, 46 + i as u8, 0, 0, 0, 1]);
        let mut reg = (0xa00_3c00 + i * 0x200).to_be_bytes().to_vec();
        reg.extend_from_slice(&0x200u64.to_be_bytes());
        t.prop("reg", &reg);
        t.prop("compatible", b"virtio,mmio\0");
        t.end();
    }
    t.end();
    t.word(9);
    t.blob()
}

#[test]
fn a_tree_tells_its_model_and_its_memory() {
    let blob = tree();
    let fdt = Fdt::new(0x4400_0000, &blob).unwrap();
    assert_eq!(fdt.total_size() as usize, blob.len());
    assert_eq!(fdt.model(), Some("linux,dummy-virt"));
    assert_eq!(fdt.root_prop("#size-cells"), Some(&[0u8, 0, 0, 2][..]));
    // A property of a node inside is no property of the root.
    assert_eq!(fdt.root_prop("method"), None);
    // The empty region is left out.
    assert_eq!(
        fdt.memory_regions(),
        [(0x4000_0000, 0x2000_0000), (0x1_0000_0000, 0x1000)]
    );
}

#[test]
fn a_tree_tells_what_is_compatible() {
    let blob = tree();
    let fdt = Fdt::new(8, &blob).unwrap();
    assert_eq!(fdt.prop_of("arm,psci-0.2", "method"), Some(&b"hvc\0"[..]));
    assert_eq!(fdt.prop_of("arm,psci-0", "method"), None);
    assert_eq!(fdt.prop_of("arm,psci", "reg"), None);
    assert_eq!(fdt.node_regs("virtio,mmio"), [(0xa00_3c00, 0x200)]);
    assert_eq!(fdt.node_regs("arm,pl011"), []);
    assert_eq!(fdt.cpus(), [0, 0x100]);
    let devices = fdt.devices("virtio,mmio");
    assert_eq!(devices.len(), 2);
    assert_eq!(devices[1], DeviceNode { base: 0xa00_3e00, irq: 79 });
    assert_eq!(fdt.nodes("device_type", "memory", "reg").len(), 1);
}

#[test]
fn what_is_no_tree_is_refused() {
    let mut blob = tree();
    assert!(Fdt::new(0, &blob).is_none());
    assert!(Fdt::new(0x4400_0004, &blob).is_none());
    assert!(Fdt::new(8, &blob[..39]).is_none());
    blob[0] = 0;
    assert!(Fdt::new(8, &blob).is_none());
}

#[test]
fn a_walk_reports_nodes_and_properties() {
    let blob = tree();
    let fdt = Fdt::new(8, &blob).unwrap();
    let mut w = Walker::new();
    assert!(matches!(w.next_event(&fdt), Some(Event::BeginNode { depth: 1 })));
    assert!(matches!(
        w.next_event(&fdt),
        Some(Event::Prop { depth: 1, name: "#address-cells", .. })
    ));
    w.next_event(&fdt);
    w.next_event(&fdt);
    assert!(!w.in_memory_node());
    assert!(matches!(w.next_event(&fdt), Some(Event::BeginNode { depth: 2 })));
    assert!(w.in_memory_node());
    assert_eq!(w.node, "memory@40000000");
    let mut ends = 0;
    while let Some(e) = w.next_event(&fdt) {
        if matches!(e, Event::EndNode) {
            ends += 1;
        }
    }
    assert_eq!(ends, 8);
    assert_eq!((align4(5), align4(8)), (8, 8));
}

#[test]
fn a_tree_that_is_cut_off_ends_the_walk() {
    let blob = tree();
    for n in 40..blob.len() {
        let fdt = Fdt::new(8, &blob[..n]).unwrap();
        let mut w = Walker::new();
        let mut events = 0;
        while w.next_event(&fdt).is_some() {
            events += 1;
        }
        assert!(events <= 40);
        fdt.memory_regions();
    }
}

// ---- the console and the programs ----

#[test]
fn the_console_takes_lines() {
    let mut u = Uart::new(5);
    set_base(&mut u, 0x900_0000);
    assert_eq!(u.base, 0xFFFF_0000_0900_0000);
    assert!(Uart::can_put(0));
    assert!(!Uart::can_put(0x20));
    assert_eq!(Uart::get(0x10, 65), None);
    assert_eq!(Uart::get(0, 0x141), Some(0x41));
    assert_eq!(write_str("a\nb"), b"a\r\nb");
}

#[test]
fn programs_and_their_errors() {
    assert_eq!((role(0), role(3), role(5)), (Role::Sender, Role::Trespasser, Role::ModelA));
    assert_eq!(role(99), Role::Unknown);
    assert_eq!(errname(-1), "EBADCAP (no such capability)");
    assert_eq!(errname(-2), "EPERM (capability lacks the right)");
    assert_eq!(errname(-3), "EREVOKED (capability was revoked)");
    assert_eq!(outcome(7), Ok(7));
    assert_eq!(outcome((-3i64) as u64), Err(-3));
    assert_eq!(wait_until(10, 4), Some(6));
    assert_eq!(wait_until(10, 10), None);
    assert_eq!(write_dec(0), b"0");
    assert_eq!(write_dec(18446744073709551615), b"18446744073709551615");
    assert_eq!(write_hex(0x402000), b"0x0000000000402000");
}

#[test]
fn numbers_in_bytes() {
    let b = [1u8, 2, 3, 4, 5, 6, 7, 8];
    assert_eq!((get_u16(&b, 1), get_u32(&b, 2)), (0x0302, 0x0605_0403));
    assert_eq!(get_u64(&b, 0), 0x0807_0605_0403_0201);
    assert_eq!((get_be16(&b, 0), get_be32(&b, 4)), (0x0102, 0x0506_0708));
    let mut m = [0u8; 16];
    set_u8(&mut m, 0, 9);
    set_u16(&mut m, 1, 0x0201);
    set_u32(&mut m, 3, 0x0605_0403);
    set_u64(&mut m, 7, 0x0e0d_0c0b_0a09_0807);
    set_bytes(&mut m, 15, &[0xff]);
    assert_eq!(m, [9, 1, 2, 3, 4, 5, 6, 7, 8, 9, 10, 11, 12, 13, 14, 0xff]);
    set_zeros(&mut m, 2, 3);
    assert_eq!(&m[..6], &[9, 1, 0, 0, 0, 5]);
    let mut s = [0u8; 512];
    put_u32(&mut s, 508, 1);
    put_u64(&mut s, 0, 2);
    assert_eq!((s[508], s[0]), (1, 2));
    assert!(same_bytes(&[1, 2], &[1, 2]) && !same_bytes(&[1], &[1, 2]));
    assert!(same_text("ab", "ab") && !same_text("ab", "ac"));
}

// ---- queues ----

fn converse(a: &mut Attach, mem: &mut [u8], answers: &[u32]) -> Vec<(u32, u32)> {
    let mut out = Vec::new();
    for &v in answers {
        assert!(a.wants().is_some());
        out.extend(a.step(mem, v));
    }
    out
}

#[test]
fn a_device_is_brought_up_after_every_check() {
    let mut a = Attach::new(2, 8, 0x1_4000_0000, true);
    assert_eq!(a.wants(), Some(0x008));
    let mut mem = vec![7u8; 8200];
    let writes = converse(&mut a, &mut mem, &[2, 1, 11, 1024]);
    assert_eq!(a.stage, Stage::Ready);
    assert!(mem[..8192].iter().all(|&b| b == 0) && mem[8192..] == [7u8; 8]);
    assert_eq!(a.wants(), None);
    assert_eq!(&writes[..3], &[(STATUS, 0), (STATUS, 1), (STATUS, 3)]);
    assert_eq!(writes.last(), Some(&(STATUS, 15)));
    assert!(writes.contains(&(0x080, 0x4000_0000)) && writes.contains(&(0x084, 1)));
    assert!(writes.contains(&(0x090, 0x4000_0080)) && writes.contains(&(0x0a0, 0x4000_0800)));
    let mut quiet = Attach::new(18, 64, 0, false);
    let writes = converse(&mut quiet, &mut mem, &[18, 3, 8, 64]);
    assert_eq!(writes.last(), Some(&(0x044, 1)));
}

#[test]
fn a_device_is_refused_for_each_reason() {
    let refused = |answers: &[u32]| {
        let mut a = Attach::new(2, 8, 0, true);
        let mut mem = vec![7u8; 8192];
        let writes = converse(&mut a, &mut mem, answers);
        assert_eq!(a.stage, Stage::Refused);
        assert_eq!(a.step(&mut mem, 15), vec![]);
        // The memory is touched only once the features are agreed on.
        let left = if answers.len() < 4 { 7 } else { 0 };
        assert!(mem.iter().all(|&b| b == left));
        writes.last().copied()
    };
    assert_eq!(refused(&[16]), None);
    assert_eq!(refused(&[2, 2]), Some((STATUS, 128)));
    assert_eq!(refused(&[2, 1, 3]), Some((STATUS, 128)));
    assert_eq!(refused(&[2, 1, 11, 7]), Some((STATUS, 128)));
}

#[test]
fn requests_in_memory() {
    let mut mem = vec![0u8; 8192];
    write_desc(&mut mem, 1, 0x1122, 512, 3, 2);
    assert_eq!(&mem[16..24], &0x1122u64.to_le_bytes());
    assert_eq!(&mem[24..32], &[0, 2, 0, 0, 3, 0, 2, 0]);
    place(&mut mem, 8, 9, 5);
    assert_eq!(mem[128 + 4 + 2], 5);
    assert_eq!(publish(&mut mem, 8, 9), 10);
    assert_eq!(mem[130], 10);
    mem[2050] = 7;
    assert_eq!(used_idx(&mem), 7);
    blk_prepare(&mut mem, 0x5000, BLK_T_OUT, 64, &[3; 512]);
    assert_eq!(&mem[4096..4112], &[1, 0, 0, 0, 0, 0, 0, 0, 64, 0, 0, 0, 0, 0, 0, 0]);
    assert_eq!(&mem[4160..4672], &[3u8; 512]);
    assert_eq!(mem[12], 1);
    assert_eq!(mem[28], 1);
    let mut out = [0u8; 512];
    // The device has not answered yet.
    assert!(!blk_finish(&mem, &mut out));
    blk_prepare(&mut mem, 0x5000, BLK_T_IN, 64, &[9; 512]);
    assert_eq!(mem[28], 3);
    mem[4672] = 0;
    assert!(blk_finish(&mem, &mut out));
    assert_eq!(out, [3; 512]);
}

// ---- the kernel's own block driver ----

fn slot(id: u32, version: u32) -> Slot {
    Slot { node: DeviceNode { base: 0, irq: 79 }, magic: MAGIC_VALUE, device_id: id, version }
}

#[test]
fn the_first_modern_block_device_is_taken() {
    let slots = [slot(0, 2), slot(2, 1), slot(16, 2), slot(2, 2), slot(2, 2)];
    assert_eq!(jungey::virtio::init(&slots), Some(3));
    assert_eq!(jungey::virtio::init(&slots[..3]), None);
    assert!(VirtioBlk::probe(&slots[3]) && !VirtioBlk::probe(&slots[1]));
    assert!(claims_interrupt(32) && !claims_interrupt(31));
    assert_eq!(VirtioBlk::bring_up(0x1000).kind, 2);
    // Where that one is refused, the walk goes on behind it.
    assert_eq!(next_block(&slots, 3), Some(3));
    assert_eq!(next_block(&slots, 4), Some(4));
    assert_eq!(next_block(&slots, 5), None);
    assert_eq!(next_block(&slots, 99), None);
}

#[test]
fn a_disk_in_the_kernel() {
    let mut h = Host::new();
    let mut mem = vec![0u8; 8192];
    let mut out = [0u8; 512];
    assert!(!have_disk(&h));
    assert_eq!(jungey::virtio::capacity_sectors(&h), 0);
    assert_eq!(jungey::virtio::read_sector(&mut h, &mut mem, 0, 512), Err("no disk"));
    assert_eq!(jungey::virtio::write_sector(&mut h, &mut mem, 0, &out), Err("no disk"));
    h.disk = Some(VirtioBlk::attached(0x4000_0000, 0x4000_1000, 131072, 79));
    assert!(have_disk(&h));
    assert_eq!(jungey::virtio::capacity_sectors(&h), 131072);
    assert_eq!(
        jungey::virtio::read_sector(&mut h, &mut mem, 0, 511),
        Err("request must be exactly one sector")
    );
    assert_eq!(jungey::virtio::read_sector(&mut h, &mut mem, 64, 512), Ok(()));
    let d = h.disk.as_mut().unwrap();
    assert_eq!((d.avail_idx, d.queue_phys()), (1, 0x4000_0000));
    assert_eq!(d.wait_for_completion(&mem, 200, 200), Waiting::NotYet);
    assert_eq!(d.wait_for_completion(&mem, 201, 200), Waiting::TimedOut);
    mem[2050] = 1;
    assert_eq!(d.wait_for_completion(&mem, 201, 200), Waiting::Done);
    assert_eq!(VirtioBlk::finish(&mem, BLK_T_IN, &mut out), Err("device reported an error"));
    mem[4672] = 0;
    mem[4160] = 5;
    assert_eq!(VirtioBlk::finish(&mem, BLK_T_IN, &mut out), Ok(()));
    assert_eq!(out[0], 5);
    h.interrupted();
    assert_eq!(irq_count(&h), 1);
}

// ---- the driver process and its client ----

#[test]
fn the_driver_waits_for_its_device() {
    let mut d = jungey::blkdrv::Disk::new(0x4000_0000, 100);
    assert_eq!(jungey::blkdrv::Disk::attach(0x4000_0000).depth, 8);
    let mut mem = vec![0u8; 8192];
    d.request(&mut mem, BLK_T_IN, 7, &[0; 512]);
    assert_eq!(mem[130], 1);
    assert_eq!(d.wait(&mem, 0), None);
    assert!(d.woken(Woken::Interrupt(15)));
    assert!(!d.woken(Woken::Nothing));
    assert!(!d.woken(Woken::Failed));
    assert_eq!((d.interrupts, d.timeouts), (15, 1));
    assert_eq!(d.wait(&mem, 8), Some(false));
    assert_eq!(d.exhausted, 1);
    mem[2050] = 1;
    assert_eq!(d.wait(&mem, 8), Some(true));
    let mut out = [0u8; 512];
    assert!(!jungey::blkdrv::finish(&mem, BLK_T_IN, &mut out));
    mem[4672] = 0;
    mem[4161] = 6;
    assert!(jungey::blkdrv::finish(&mem, BLK_T_IN, &mut out));
    assert_eq!(out[1], 6);
}

fn received(bytes: &[u8]) -> ([u8; 525], usize) {
    let mut req = [0u8; 525];
    req[..bytes.len()].copy_from_slice(bytes);
    (req, bytes.len())
}

struct Wire {
    client: Client,
    channels: Channels,
    sched: Scheduler,
    request: usize,
    reply: usize,
}

fn wire() -> Wire {
    let mut channels = Channels::new();
    let request = jungey::ipc::create(&mut channels);
    let reply = jungey::ipc::create(&mut channels);
    let mut client = Client::new();
    assert!(!attached(&client));
    attach(&mut client, request, reply);
    assert!(attached(&client));
    Wire { client, channels, sched: Scheduler::new(0, 0), request, reply }
}

impl Wire {
    fn next_request(&mut self) -> Vec<u8> {
        jungey::ipc::try_recv(&mut self.channels, self.request).unwrap().bytes
    }

    fn respond(&mut self, bytes: Vec<u8>) {
        jungey::ipc::send(&mut self.channels, &mut self.sched, self.reply, 4, bytes).unwrap();
    }
}

/// What the client asks, the driver understands, and its answers are recognised.
#[test]
fn a_sector_goes_over_the_wire() {
    let mut w = wire();
    let data = [0x5au8; 512];
    let p = jungey::blk::write_sector(&mut w.client, &mut w.channels, &mut w.sched, 64, &data, 10);
    let p = p.unwrap();
    assert_eq!((p.tag, p.deadline), (1, 810));
    let (req, n) = received(&w.next_request());
    let ask = parse(&req, n);
    assert!(matches!(ask, Ask::Write { sector: 64, data: d } if d == data));
    w.respond(answer(&req, &ask, 100, true, &[0; 512]));
    assert!(matches!(poll(&mut w.client, &mut w.channels, &p, 11), Poll::Done(_)));

    let p = jungey::blk::read_sector(&mut w.client, &mut w.channels, &mut w.sched, 64, 512, 10);
    let p = p.unwrap();
    let (req, n) = received(&w.next_request());
    let ask = parse(&req, n);
    assert!(matches!(ask, Ask::Read { sector: 64 }));
    w.respond(answer(&req, &ask, 100, true, &data));
    let mut out = [0u8; 512];
    match poll(&mut w.client, &mut w.channels, &p, 11) {
        Poll::Done(bytes) => assert_eq!(read_reply(&bytes, &mut out), Ok(())),
        _ => panic!("no reply"),
    }
    assert_eq!(out, data);

    let p = info(&mut w.client, &mut w.channels, &mut w.sched, 10).unwrap();
    let (req, n) = received(&w.next_request());
    w.respond(answer(&req, &parse(&req, n), 131072, true, &data));
    match poll(&mut w.client, &mut w.channels, &p, 11) {
        Poll::Done(bytes) => assert_eq!(info_reply(&mut w.client, &bytes), Ok(131072)),
        _ => panic!("no reply"),
    }
    assert_eq!((capacity_sectors(&w.client), request_count(&w.client)), (131072, 3));

    let p = jungey::blk::shutdown(&mut w.client, &mut w.channels, &mut w.sched, 10).unwrap();
    let (req, n) = received(&w.next_request());
    assert!(matches!(parse(&req, n), Ask::Shutdown));
    assert_eq!(p.tag, 4);
}

#[test]
fn a_stale_reply_is_no_answer() {
    let mut w = wire();
    let first = info(&mut w.client, &mut w.channels, &mut w.sched, 0).unwrap();
    let (late, n) = received(&w.next_request());
    assert!(matches!(poll(&mut w.client, &mut w.channels, &first, 800), Poll::Wait));
    assert!(matches!(
        poll(&mut w.client, &mut w.channels, &first, 801),
        Poll::Failed("block driver did not answer")
    ));
    let second = info(&mut w.client, &mut w.channels, &mut w.sched, 900).unwrap();
    w.respond(answer(&late, &parse(&late, n), 1, true, &[0; 512]));
    assert!(matches!(poll(&mut w.client, &mut w.channels, &second, 901), Poll::Wait));
    assert_eq!(stale_replies(&w.client), 1);
    let (req, n) = received(&w.next_request());
    w.respond(answer(&req, &parse(&req, n), 2, true, &[0; 512]));
    assert!(matches!(poll(&mut w.client, &mut w.channels, &second, 901), Poll::Done(_)));
}

#[test]
fn a_client_reports_each_failure() {
    let mut w = wire();
    let mut none = Client::new();
    assert_eq!(
        info(&mut none, &mut w.channels, &mut w.sched, 0).err(),
        Some("no block driver attached")
    );
    attach(&mut none, 9, 9);
    assert_eq!(
        info(&mut none, &mut w.channels, &mut w.sched, 0).err(),
        Some("request channel is gone")
    );
    assert!(none.acquire());
    assert!(!none.acquire());
    none.release();
    assert!(none.acquire());
    let p = info(&mut w.client, &mut w.channels, &mut w.sched, 0).unwrap();
    let (req, n) = received(&w.next_request());
    assert!(matches!(parse(&req, 12), Ask::Ignore));
    let mut odd = req;
    odd[0] = 77;
    assert!(matches!(parse(&odd, n), Ask::Unknown));
    w.respond(answer(&odd, &Ask::Unknown, 0, true, &[0; 512]));
    assert!(matches!(
        poll(&mut w.client, &mut w.channels, &p, 1),
        Poll::Failed("driver reported an error")
    ));
    assert_eq!(info_reply(&mut w.client, &[0; 12]), Err("short info reply"));
    assert_eq!(read_reply(&[0; 516], &mut [0; 512]), Err("short read reply"));
    assert_eq!(reply_tag(&[0, 1, 2, 3, 4]), 0x0403_0201);
    assert_eq!(reply_tag(&[0, 1]), 0);
}

#[test]
fn a_request_is_one_sector() {
    let mut w = wire();
    assert_eq!(
        jungey::blk::read_sector(&mut w.client, &mut w.channels, &mut w.sched, 1, 511, 0).err(),
        Some("reads are one sector")
    );
    assert_eq!(
        jungey::blk::write_sector(&mut w.client, &mut w.channels, &mut w.sched, 1, &[0; 513], 0)
            .err(),
        Some("writes are one sector")
    );
}
