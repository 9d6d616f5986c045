//! Processes: an address space plus a capability table.
//!
//! Deliberately thin. A process is not a bundle of permissions or an identity
//! the kernel reasons about — it is a page table and a list of the capabilities
//! it was handed. Everything it is allowed to do follows from that list.
use vstd::prelude::*;
use crate::cap::{is_descendant, Cap, Ledger, Obj};
use crate::elf::load;
use crate::mm::frames::Frames;
use crate::mm::paging::{AddressSpace, Path, Perm};
use crate::mm::ram::Ram;
use crate::sched::{wake_all_on, Scheduler};

verus! {

/// Capability slots per process. Small on purpose: a process that needs many is
/// usually one that should have been split.
pub const CAP_SLOTS: usize = 8;

/// Top of the user stack.
pub const USER_STACK_TOP: u64 = 0x7000_0000;

pub const USER_STACK_PAGES: u64 = 4;

/// Bottom of the user stack.
pub const USER_STACK_BOTTOM: u64 = 0x6FFF_C000;

pub struct Process {
    pub pid: usize,
    pub name: &'static str,
    pub space: AddressSpace,
    pub caps: [Option<Cap>; 8],
    pub entry: u64,
    pub stack_top: u64,
    /// Handed to the process at entry. The only argument it ever gets.
    pub arg: u64,
    pub exit_code: Option<i64>,
    /// Interrupts this process has already been told about.
    pub irq_seen: u64,
}

/// Every process, by pid.
pub struct Table {
    pub procs: Vec<Process>,
}

/// What a fresh process finds at `w`: its stack, its image, or nothing. What it finds
/// is in a frame of its own.
pub open spec fn fresh_at(image: Seq<u8>, s: AddressSpace, ram: Ram, frames: Frames, w: u64) -> bool {
    let e = s.leaf(ram, crate::mm::paging::path_of(w));
    let x = e->0 & crate::mm::paging::ADDR_MASK;
    if USER_STACK_BOTTOM <= w < USER_STACK_TOP {
        &&& e is Some
        &&& e->0 == crate::mm::paging::page_descriptor(x, Perm::UserData)
        &&& frames.in_use(x)
        &&& s.owned@.contains(x)
        &&& !s.tables@.contains(x)
        &&& ram.byte(x + w % 4096) == 0
    } else {
        match crate::elf::covering(image, crate::elf::header_count(image), w as int) {
            Some(i) => crate::elf::placed(image, i, s, ram, frames, w),
            None => e is None,
        }
    }
}

/// What a fresh process finds in its memory: its stack, its image, and nothing
/// else.
pub open spec fn fresh_memory(image: Seq<u8>, s: AddressSpace, ram: Ram, frames: Frames) -> bool {
    forall|w: u64|
        w < crate::mm::paging::USER_LIMIT ==> #[trigger] fresh_at(image, s, ram, frames, w)
}

impl Table {
    pub fn new() -> (t: Table)
        ensures
            t.procs@ == Seq::<Process>::empty(),
    {
        Table { procs: Vec::new() }
    }
}

proof fn lemma_new_is_anchored(s: AddressSpace, ram: Ram, frames: Frames)
    requires
        forall|p: Path| crate::mm::paging::path_ok(p) ==> #[trigger] s.leaf(ram, p) is None,
    ensures
        crate::elf::anchored(s, ram, frames),
{
}

proof fn lemma_stack_on_image(
    image: Seq<u8>,
    s0: AddressSpace,
    r0: Ram,
    s1: AddressSpace,
    r1: Ram,
    f1: Frames,
    s2: AddressSpace,
    r2: Ram,
    f2: Frames,
    fs: Seq<u64>,
)
    requires
        s1.wf(r1, f1),
        crate::mm::paging::grew(s1, r1, f1, s2, r2, f2),
        crate::mm::paging::kept(s1, r1, s2, r2),
        crate::mm::paging::anonymous(
            s1,
            r1,
            f1,
            s2,
            r2,
            f2,
            USER_STACK_BOTTOM,
            Perm::UserData,
            fs,
        ),
        fs.len() == 4,
        forall|p: Path| crate::mm::paging::path_ok(p) ==> #[trigger] s0.leaf(r0, p) is None,
        crate::elf::in_place(image, crate::elf::header_count(image), s0, r0, s1, r1, f1),
    ensures
        fresh_memory(image, s2, r2, f2),
{
    assert forall|w: u64| w < crate::mm::paging::USER_LIMIT implies #[trigger] fresh_at(
        image,
        s2,
        r2,
        f2,
        w,
    ) by {
        lemma_walk_on_stack(s1, r1, f1, s2, r2, f2, fs, w);
        if !(USER_STACK_BOTTOM <= w < USER_STACK_TOP) {
            lemma_image_kept(image, s0, r0, s1, r1, f1, s2, r2, f2, w);
        }
    }
}

/// A walk to the stack leads to one of its frames; any other leads where it led.
proof fn lemma_walk_on_stack(
    s1: AddressSpace,
    r1: Ram,
    f1: Frames,
    s2: AddressSpace,
    r2: Ram,
    f2: Frames,
    fs: Seq<u64>,
    w: u64,
)
    requires
        w < crate::mm::paging::USER_LIMIT,
        s2.wf(r2, f2),
        crate::mm::paging::anonymous(
            s1,
            r1,
            f1,
            s2,
            r2,
            f2,
            USER_STACK_BOTTOM,
            Perm::UserData,
            fs,
        ),
        fs.len() == 4,
    ensures
        ({
            let e = s2.leaf(r2, crate::mm::paging::path_of(w));
            let x = e->0 & crate::mm::paging::ADDR_MASK;
            if USER_STACK_BOTTOM <= w < USER_STACK_TOP {
                &&& e is Some
                &&& e->0 == crate::mm::paging::page_descriptor(x, Perm::UserData)
                &&& f2.in_use(x)
                &&& s2.owned@.contains(x)
                &&& !s2.tables@.contains(x)
                &&& r2.byte(x + w % 4096) == 0
            } else {
                e == s1.leaf(r1, crate::mm::paging::path_of(w))
            }
        }),
{
    let p = crate::mm::paging::path_of(w);
    crate::mm::paging::paths_are_in_range(w);
    crate::mm::paging_laws::backed_pages_lead_to_their_frames(
        r1,
        s1.root as int,
        USER_STACK_BOTTOM,
        fs,
        Perm::UserData,
        w,
    );
    assert(crate::mm::paging::leaf(r2, s2.root as int, p) == crate::mm::paging::backed_leaf(
        r1,
        s1.root as int,
        USER_STACK_BOTTOM,
        fs,
        Perm::UserData,
        p,
    ));
    if USER_STACK_BOTTOM <= w < USER_STACK_TOP {
        let i = (w - USER_STACK_BOTTOM) / 4096;
        assert(0 <= i < 4);
        assert(f2.in_use(fs[i]));
        crate::mm::paging::a_descriptor_holds_its_frame(fs[i], Perm::UserData);
        let q = fs[i] + w % 4096;
        assert(r2.byte(q) == 0);
    }
}

/// What the image put in place is still there when the space has grown.
proof fn lemma_image_kept(
    image: Seq<u8>,
    s0: AddressSpace,
    r0: Ram,
    s1: AddressSpace,
    r1: Ram,
    f1: Frames,
    s2: AddressSpace,
    r2: Ram,
    f2: Frames,
    w: u64,
)
    requires
        w < crate::mm::paging::USER_LIMIT,
        s1.wf(r1, f1),
        crate::mm::paging::grew(s1, r1, f1, s2, r2, f2),
        crate::mm::paging::kept(s1, r1, s2, r2),
        s2.leaf(r2, crate::mm::paging::path_of(w)) == s1.leaf(r1, crate::mm::paging::path_of(w)),
        forall|p: Path| crate::mm::paging::path_ok(p) ==> #[trigger] s0.leaf(r0, p) is None,
        crate::elf::in_place(image, crate::elf::header_count(image), s0, r0, s1, r1, f1),
    ensures
        match crate::elf::covering(image, crate::elf::header_count(image), w as int) {
            Some(i) => crate::elf::placed(image, i, s2, r2, f2, w),
            None => s2.leaf(r2, crate::mm::paging::path_of(w)) is None,
        },
{
    let p = crate::mm::paging::path_of(w);
    crate::mm::paging::paths_are_in_range(w);
    match crate::elf::covering(image, crate::elf::header_count(image), w as int) {
        Some(i) => {
            assert(crate::elf::placed(image, i, s1, r1, f1, w));
            let x = s1.leaf(r1, p)->0 & crate::mm::paging::ADDR_MASK;
            crate::mm::paging::frames_in_use_are_kept(s1, r1, f1, s2, r2, f2, x);
            let q = x + w % 4096;
            assert(r2.byte(q) == r1.byte(q));
            let k = choose|k: int| 0 <= k < s1.owned@.len() && s1.owned@[k] == x;
            assert(s2.owned@.take(s1.owned@.len() as int)[k] == x);
            assert(s2.owned@[k] == x);
        },
        None => {
            assert(s1.leaf(r1, p) == s0.leaf(r0, p));
        },
    }
}

/// The frames that a process may need: its root table, its image and its stack.
pub open spec fn frames_for(image: Seq<u8>) -> int {
    1 + crate::elf::frames_for(image, crate::elf::header_count(image)) + 4 * USER_STACK_PAGES
}

/// Whether an error is one that creating a process can end in with so many frames
/// left, and why.
pub open spec fn create_error(image: Seq<u8>, left: int, e: &'static str) -> bool {
    ||| e == "no memory for an address space" && left == 0
    ||| crate::elf::out_of_memory(e) && crate::elf::header_error(image) is None && left
        < frames_for(image)
    ||| crate::elf::header_error(image) == Some(e)
    ||| crate::elf::header_error(image) is None && crate::elf::first_bad_segment(image, 0)
        < crate::elf::header_count(image) && crate::elf::segment_error(
        image,
        crate::elf::first_bad_segment(image, 0),
    ) == Some(e)
}

/// Build an address space, load `image` into it, and map a stack. Gives the new
/// process's pid; where that fails, every frame taken is given back.
#[verifier::rlimit(40)]
pub fn create(
    table: &mut Table,
    frames: &mut Frames,
    ram: &mut Ram,
    next_asid: &mut u64,
    name: &'static str,
    image: &[u8],
    arg: u64,
) -> (r: Result<usize, &'static str>)
    requires
        crate::mm::paging::frames_in(*old(frames), *old(ram)),
        crate::elf::header_error(image@) is None ==> crate::elf::addressable(image@),
    ensures
        crate::mm::paging::frames_in(*final(frames), *final(ram)),
        final(ram).base == old(ram).base,
        final(ram).bytes@.len() == old(ram).bytes@.len(),
        // Nothing that was in use is touched or lost.
        forall|x: u64| old(frames).in_use(x) ==> #[trigger] final(frames).in_use(x),
        forall|x: u64, q: int|
            #![trigger old(frames).in_use(x), final(ram).byte(q)]
            old(frames).in_use(x) && x <= q < x + 4096 ==> final(ram).byte(q) == old(ram).byte(q),
        spaces_ok(old(table).procs@, *old(ram), *old(frames)) ==> spaces_ok(
            final(table).procs@,
            *final(ram),
            *final(frames),
        ),
        *final(next_asid) == (if old(frames).available() == 0 {
            *old(next_asid)
        } else {
            crate::mm::paging::asid_after(*old(next_asid))
        }),
        match r {
            Ok(pid) => {
                let p = final(table).procs@.last();
                &&& crate::elf::header_error(image@) is None
                &&& crate::elf::first_bad_segment(image@, 0) == crate::elf::header_count(image@)
                &&& pid == old(table).procs@.len()
                &&& final(table).procs@.len() == old(table).procs@.len() + 1
                &&& final(table).procs@.drop_last() == old(table).procs@
                &&& p.pid == pid
                &&& p.name == name
                &&& p.entry == crate::elf::entry_of(image@)
                &&& p.stack_top == USER_STACK_TOP
                &&& p.arg == arg
                &&& p.exit_code is None
                &&& p.irq_seen == 0
                &&& forall|i: int| 0 <= i < 8 ==> (#[trigger] p.caps@[i]) is None
                &&& p.space.asid == crate::mm::paging::asid_from(*old(next_asid))
                &&& 1 <= p.space.asid <= 0xffff
                &&& p.space.wf(*final(ram), *final(frames))
                &&& crate::elf::anchored(p.space, *final(ram), *final(frames))
                &&& fresh_memory(image@, p.space, *final(ram), *final(frames))
                &&& forall|k: int|
                    0 <= k < p.space.owned@.len() ==> !old(frames).in_use(
                        #[trigger] p.space.owned@[k],
                    )
                &&& final(frames).available() + p.space.owned@.len() == old(frames).available()
            },
            Err(e) => {
                &&& create_error(image@, old(frames).available() as int, e)
                &&& final(table).procs@ == old(table).procs@
                &&& final(frames).available() == old(frames).available()
                &&& forall|x: u64| #[trigger]
                    final(frames).in_use(x) == old(frames).in_use(x)
            },
        },
{
    let ghost rr = *ram;
    let ghost ff = *frames;
    let mut space = match AddressSpace::new(frames, ram, next_asid) {
        None => {
            proof {
                crate::mm::frames::a_frame_is_handed_out_once(ff, *frames);
                lemma_none_disturbed(table.procs@, rr, ff, *ram, *frames);
            }
            return Err("no memory for an address space");
        },
        Some(s) => s,
    };
    let ghost s0 = space;
    let ghost r0 = *ram;
    let ghost f0 = *frames;
    proof {
        crate::mm::frames::a_frame_is_handed_out_once(ff, f0);
        crate::mm::frames::availability_is_a_count(f0);
        assert(ff.available() > 0);
        lemma_new_is_anchored(s0, r0, f0);
        assert(s0.owned@[0] == s0.root);
    }
    let loaded = load(&mut space, frames, ram, image);
    let ghost s1 = space;
    let ghost r1 = *ram;
    let ghost f1 = *frames;
    let entry: u64 = match loaded {
        Err(e) => {
            proof {
                lemma_since(rr, ff, s0, r0, f0, s1, r1, f1);
                lemma_all_given_back(ff, f0, s0, r0, s1, r1, f1);
            }
            space.release(frames);
            proof {
                lemma_none_disturbed(table.procs@, rr, ff, *ram, *frames);
            }
            return Err(e);
        },
        Ok(entry) => entry,
    };
    let m = space.map_anonymous(frames, ram, USER_STACK_BOTTOM, USER_STACK_PAGES, Perm::UserData);
    let ghost s2 = space;
    let ghost r2 = *ram;
    let ghost f2 = *frames;
    proof {
        crate::mm::paging::growth_adds_up(s0, r0, f0, s1, r1, f1, s2, r2, f2);
        lemma_since(rr, ff, s0, r0, f0, s2, r2, f2);
        lemma_all_given_back(ff, f0, s0, r0, s2, r2, f2);
    }
    match m {
        Err(e) => {
            space.release(frames);
            proof {
                lemma_none_disturbed(table.procs@, rr, ff, *ram, *frames);
            }
            return Err(e);
        },
        Ok(_) => {},
    }
    proof {
        let fs = choose|fs: Seq<u64>|
            {
                &&& #[trigger] crate::mm::paging::anonymous(
                    s1,
                    r1,
                    f1,
                    s2,
                    r2,
                    f2,
                    USER_STACK_BOTTOM,
                    Perm::UserData,
                    fs,
                )
                &&& fs.len() == 4
            };
        lemma_stack_on_image(image@, s0, r0, s1, r1, f1, s2, r2, f2, fs);
        crate::elf::anonymous_memory_is_anchored(
            s1,
            r1,
            f1,
            s2,
            r2,
            f2,
            USER_STACK_BOTTOM,
            Perm::UserData,
            fs,
        );
    }
    let pid: usize = table.procs.len();
    let caps: [Option<Cap>; 8] = [None, None, None, None, None, None, None, None];
    table.procs.push(
        Process {
            pid,
            name,
            space,
            caps,
            entry,
            stack_top: USER_STACK_TOP,
            arg,
            exit_code: None,
            irq_seen: 0,
        },
    );
    assert(table.procs@.drop_last() =~= old(table).procs@);
    proof {
        let p = table.procs@.last();
        assert(table.procs@ =~= old(table).procs@.push(p));
        if spaces_ok(old(table).procs@, rr, ff) {
            creating_a_process_disturbs_no_other(
                old(table).procs@,
                rr,
                ff,
                *ram,
                *frames,
                Some(p),
            );
        }
    }
    Ok(pid)
}

/// With no process made, no process is disturbed.
proof fn lemma_none_disturbed(procs: Seq<Process>, r0: Ram, f0: Frames, r1: Ram, f1: Frames)
    requires
        crate::mm::paging::frames_in(f1, r1),
        r1.base == r0.base,
        r1.bytes@.len() == r0.bytes@.len(),
        forall|x: u64| f0.in_use(x) ==> #[trigger] f1.in_use(x),
        forall|x: u64, q: int|
            #![trigger f0.in_use(x), r1.byte(q)]
            f0.in_use(x) && x <= q < x + 4096 ==> r1.byte(q) == r0.byte(q),
    ensures
        spaces_ok(procs, r0, f0) ==> spaces_ok(procs, r1, f1),
{
    if spaces_ok(procs, r0, f0) {
        creating_a_process_disturbs_no_other(procs, r0, f0, r1, f1, None);
    }
}

/// Since before the space existed, only its own frames have changed.
proof fn lemma_since(
    rr: Ram,
    ff: Frames,
    s0: AddressSpace,
    r0: Ram,
    f0: Frames,
    s: AddressSpace,
    r: Ram,
    f: Frames,
)
    requires
        ff.sound(),
        s0.wf(r0, f0),
        s0.owned@ == seq![s0.root],
        s0.tables@ == seq![s0.root],
        !ff.in_use(s0.root),
        crate::mm::paging::frames_in(ff, rr),
        rr.same_outside(r0, s0.root as int, 4096),
        forall|x: u64| x != s0.root ==> #[trigger] f0.in_use(x) == ff.in_use(x),
        crate::mm::paging::grew(s0, r0, f0, s, r, f),
        crate::mm::paging::kept(s0, r0, s, r),
    ensures
        forall|x: u64| ff.in_use(x) ==> #[trigger] f.in_use(x),
        forall|x: u64, q: int|
            #![trigger ff.in_use(x), r.byte(q)]
            ff.in_use(x) && x <= q < x + 4096 ==> r.byte(q) == rr.byte(q),
        forall|k: int| 0 <= k < s.owned@.len() ==> !ff.in_use(#[trigger] s.owned@[k]),
{
    assert forall|x: u64| ff.in_use(x) implies #[trigger] f.in_use(x) by {
        assert(f0.in_use(x));
    }
    assert forall|x: u64, q: int|
        #![trigger ff.in_use(x), r.byte(q)]
        ff.in_use(x) && x <= q < x + 4096 implies r.byte(q) == rr.byte(q) by {
        assert(f0.in_use(x));
        assert(!s0.tables@.contains(x)) by {
            if s0.tables@.contains(x) {
                assert(x == s0.root);
            }
        }
        crate::mm::paging::frames_in_use_are_kept(s0, r0, f0, s, r, f, x);
        assert(rr.holds(q, 1));
        assert(f0.in_use(s0.owned@[0]));
        assert(r0.byte(q) == rr.byte(q));
    }
    assert forall|k: int| 0 <= k < s.owned@.len() implies !ff.in_use(#[trigger] s.owned@[k]) by {
        if k < 1 {
            assert(s.owned@.take(1)[0] == s0.owned@[0]);
        } else {
            assert(!f0.in_use(s.owned@[k]));
            if ff.in_use(s.owned@[k]) {
                assert(f0.in_use(s.owned@[k]));
            }
        }
    }
}

/// What is in use and not the space's was in use before there was a space.
proof fn lemma_all_given_back(
    ff: Frames,
    f0: Frames,
    s0: AddressSpace,
    r0: Ram,
    s: AddressSpace,
    r: Ram,
    f: Frames,
)
    requires
        crate::mm::frames::allocated_from(ff, f0),
        ff.sound(),
        f0.wf(),
        s0.owned@ == seq![s0.root],
        crate::mm::frames::alloc_outcome(ff).0 == Some(s0.root),
        crate::mm::paging::grew(s0, r0, f0, s, r, f),
    ensures
        f.available() + s.owned@.len() == ff.available(),
        forall|x: u64| f.in_use(x) && !s.owned@.contains(x) ==> #[trigger] ff.in_use(x),
{
    crate::mm::frames::a_frame_is_handed_out_once(ff, f0);
    assert forall|x: u64| f.in_use(x) && !s.owned@.contains(x) implies #[trigger] ff.in_use(x) by {
        assert(x != s0.root) by {
            assert(s.owned@.take(1)[0] == s0.owned@[0]);
            assert(s.owned@[0] == s0.root);
        }
        assert(f0.in_use(x) == ff.in_use(x));
    }
}

/// No frame of one space is a frame of the other.
pub open spec fn disjoint(a: AddressSpace, b: AddressSpace) -> bool {
    forall|k: int| 0 <= k < b.owned@.len() ==> !a.owned@.contains(#[trigger] b.owned@[k])
}

/// Every process has a sound address space, and no two share a frame.
pub open spec fn spaces_ok(procs: Seq<Process>, ram: Ram, frames: Frames) -> bool {
    &&& crate::mm::paging::frames_in(frames, ram)
    &&& forall|i: int| 0 <= i < procs.len() ==> (#[trigger] procs[i]).space.wf(ram, frames)
    &&& forall|i: int, j: int|
        0 <= i < procs.len() && 0 <= j < procs.len() && i != j ==> disjoint(
            (#[trigger] procs[i]).space,
            (#[trigger] procs[j]).space,
        )
}

/// Whether processes are sound depends on their spaces alone.
pub proof fn only_spaces_matter(a: Seq<Process>, b: Seq<Process>, ram: Ram, frames: Frames)
    requires
        spaces_ok(a, ram, frames),
        b.len() == a.len(),
        forall|i: int| 0 <= i < b.len() ==> (#[trigger] b[i]).space == a[i].space,
    ensures
        spaces_ok(b, ram, frames),
{
    assert forall|i: int| 0 <= i < b.len() implies (#[trigger] b[i]).space.wf(ram, frames) by {
        assert(a[i].space.wf(ram, frames));
    }
    assert forall|i: int, j: int|
        0 <= i < b.len() && 0 <= j < b.len() && i != j implies disjoint(
        (#[trigger] b[i]).space,
        (#[trigger] b[j]).space,
    ) by {
        assert(disjoint(a[i].space, a[j].space));
    }
}

/// A process whose space has grown, among processes that stayed as they were.
pub open spec fn one_grew(
    p0: Seq<Process>,
    r0: Ram,
    f0: Frames,
    p1: Seq<Process>,
    r1: Ram,
    f1: Frames,
    pid: int,
) -> bool {
    &&& p1.len() == p0.len()
    &&& forall|i: int| 0 <= i < p0.len() && i != pid ==> #[trigger] p1[i] == p0[i]
    &&& crate::mm::paging::grew(p0[pid].space, r0, f0, p1[pid].space, r1, f1)
    &&& crate::mm::paging::kept(p0[pid].space, r0, p1[pid].space, r1)
}

/// Processes are isolated: when one process's space changes, every other keeps
/// its space and every walk through it.
pub proof fn processes_are_isolated(
    p0: Seq<Process>,
    r0: Ram,
    f0: Frames,
    p1: Seq<Process>,
    r1: Ram,
    f1: Frames,
    pid: int,
)
    requires
        spaces_ok(p0, r0, f0),
        0 <= pid < p0.len(),
        one_grew(p0, r0, f0, p1, r1, f1, pid),
    ensures
        spaces_ok(p1, r1, f1),
        forall|i: int, q: Path|
            0 <= i < p0.len() && i != pid && crate::mm::paging::path_ok(q)
                ==> #[trigger] p1[i].space.leaf(r1, q) == p0[i].space.leaf(r0, q),
{
    let a0 = p0[pid].space;
    let a1 = p1[pid].space;
    assert forall|i: int| 0 <= i < p1.len() implies (#[trigger] p1[i]).space.wf(r1, f1) by {
        if i != pid {
            assert(disjoint(p0[pid].space, p0[i].space));
            crate::mm::paging_laws::one_space_cannot_touch_another(
                a0,
                r0,
                f0,
                a1,
                r1,
                f1,
                p0[i].space,
            );
        }
    }
    assert forall|i: int, j: int|
        0 <= i < p1.len() && 0 <= j < p1.len() && i != j implies disjoint(
        (#[trigger] p1[i]).space,
        (#[trigger] p1[j]).space,
    ) by {
        assert(disjoint(p0[i].space, p0[j].space));
        assert(disjoint(p0[j].space, p0[i].space));
        if i == pid {
            crate::mm::paging_laws::one_space_cannot_touch_another(
                a0,
                r0,
                f0,
                a1,
                r1,
                f1,
                p0[j].space,
            );
        } else if j == pid {
            crate::mm::paging_laws::one_space_cannot_touch_another(
                a0,
                r0,
                f0,
                a1,
                r1,
                f1,
                p0[i].space,
            );
            assert forall|k: int| 0 <= k < a1.owned@.len() implies !p0[i].space.owned@.contains(
                #[trigger] a1.owned@[k],
            ) by {
                let x = a1.owned@[k];
                if p0[i].space.owned@.contains(x) {
                    let m = choose|m: int|
                        0 <= m < p0[i].space.owned@.len() && p0[i].space.owned@[m] == x;
                    assert(!a1.owned@.contains(p0[i].space.owned@[m]));
                }
            }
        }
    }
    assert forall|i: int, q: Path|
        0 <= i < p0.len() && i != pid && crate::mm::paging::path_ok(q) implies
        #[trigger] p1[i].space.leaf(r1, q) == p0[i].space.leaf(r0, q) by {
        assert(disjoint(p0[pid].space, p0[i].space));
        crate::mm::paging_laws::one_space_cannot_touch_another(a0, r0, f0, a1, r1, f1, p0[i].space);
    }
}

/// Writing to a frame that no one uses disturbs no process.
pub proof fn fresh_frames_disturb_no_process(
    procs: Seq<Process>,
    r0: Ram,
    f0: Frames,
    r1: Ram,
    f1: Frames,
    x: u64,
)
    requires
        spaces_ok(procs, r0, f0),
        crate::mm::paging::frames_in(f1, r1),
        x % 4096 == 0,
        !f0.in_use(x),
        r0.same_outside(r1, x as int, 4096),
        forall|y: u64| f0.in_use(y) ==> #[trigger] f1.in_use(y),
    ensures
        spaces_ok(procs, r1, f1),
        forall|i: int, q: Path|
            0 <= i < procs.len() && crate::mm::paging::path_ok(q)
                ==> #[trigger] procs[i].space.leaf(r1, q) == procs[i].space.leaf(r0, q),
{
    assert forall|i: int| 0 <= i < procs.len() implies (#[trigger] procs[i]).space.wf(r1, f1)
        && forall|q: Path| crate::mm::paging::path_ok(q)
            ==> #[trigger] procs[i].space.leaf(r1, q) == procs[i].space.leaf(r0, q) by {
        let s = procs[i].space;
        assert(!s.tables@.contains(x)) by {
            if s.tables@.contains(x) {
                let k = choose|k: int| 0 <= k < s.tables@.len() && s.tables@[k] == x;
                assert(s.owned@.contains(s.tables@[k]));
                let m = choose|m: int| 0 <= m < s.owned@.len() && s.owned@[m] == x;
                assert(f0.in_use(s.owned@[m]));
            }
        }
        crate::mm::paging::page_writes_keep_walks(r0, r1, s.root as int, s.tables@, x);
        assert forall|k: int| 0 <= k < s.owned@.len() implies f1.in_use(#[trigger] s.owned@[k]) by {
            assert(f0.in_use(s.owned@[k]));
        }
    }
}

/// Creating a process disturbs no other: each keeps its space, every walk through it, and
/// every byte of its frames; and the new one shares no frame with any of them.
pub proof fn creating_a_process_disturbs_no_other(
    procs: Seq<Process>,
    r0: Ram,
    f0: Frames,
    r1: Ram,
    f1: Frames,
    fresh: Option<Process>,
)
    requires
        spaces_ok(procs, r0, f0),
        crate::mm::paging::frames_in(f1, r1),
        r1.base == r0.base,
        r1.bytes@.len() == r0.bytes@.len(),
        forall|x: u64| f0.in_use(x) ==> #[trigger] f1.in_use(x),
        forall|x: u64, q: int|
            #![trigger f0.in_use(x), r1.byte(q)]
            f0.in_use(x) && x <= q < x + 4096 ==> r1.byte(q) == r0.byte(q),
        fresh matches Some(p) ==> {
            &&& p.space.wf(r1, f1)
            &&& forall|k: int|
                0 <= k < p.space.owned@.len() ==> !f0.in_use(#[trigger] p.space.owned@[k])
        },
    ensures
        match fresh {
            Some(p) => spaces_ok(procs.push(p), r1, f1),
            None => spaces_ok(procs, r1, f1),
        },
        forall|i: int, q: Path|
            0 <= i < procs.len() && crate::mm::paging::path_ok(q)
                ==> #[trigger] procs[i].space.leaf(r1, q) == procs[i].space.leaf(r0, q),
        forall|i: int, k: int, q: int|
            #![trigger procs[i].space.owned@[k], r1.byte(q)]
            0 <= i < procs.len() && 0 <= k < procs[i].space.owned@.len()
                && procs[i].space.owned@[k] <= q < procs[i].space.owned@[k] + 4096 ==> r1.byte(q)
                == r0.byte(q),
{
    assert forall|i: int, k: int, q: int|
        #![trigger procs[i].space.owned@[k], r1.byte(q)]
        0 <= i < procs.len() && 0 <= k < procs[i].space.owned@.len()
            && procs[i].space.owned@[k] <= q < procs[i].space.owned@[k] + 4096 implies r1.byte(q)
        == r0.byte(q) by {
        assert(procs[i].space.wf(r0, f0));
        assert(f0.in_use(procs[i].space.owned@[k]));
    }
    assert forall|i: int| 0 <= i < procs.len() implies (#[trigger] procs[i]).space.wf(r1, f1)
        && forall|q: Path|
        crate::mm::paging::path_ok(q) ==> #[trigger] procs[i].space.leaf(r1, q)
            == procs[i].space.leaf(r0, q) by {
        let s = procs[i].space;
        assert(s.wf(r0, f0));
        crate::mm::paging::tables_kept_keep_walks(r0, r1, s, f0);
        assert forall|k: int| 0 <= k < s.owned@.len() implies f1.in_use(#[trigger] s.owned@[k]) by {
            assert(f0.in_use(s.owned@[k]));
        }
    }
    assert forall|i: int, j: int|
        0 <= i < procs.len() && 0 <= j < procs.len() && i != j implies disjoint(
        (#[trigger] procs[i]).space,
        (#[trigger] procs[j]).space,
    ) by {
        assert(disjoint(procs[i].space, procs[j].space));
    }
    match fresh {
        None => {},
        Some(p) => {
            let all = procs.push(p);
            assert forall|i: int| 0 <= i < procs.len() implies disjoint(
                (#[trigger] procs[i]).space,
                p.space,
            ) && disjoint(p.space, procs[i].space) by {
                lemma_apart(procs[i].space, p.space, r0, f0);
            }
            assert forall|i: int| 0 <= i < all.len() implies (#[trigger] all[i]).space.wf(
                r1,
                f1,
            ) by {
                if i < procs.len() {
                    assert(all[i] == procs[i]);
                }
            }
            assert forall|i: int, j: int|
                0 <= i < all.len() && 0 <= j < all.len() && i != j implies disjoint(
                (#[trigger] all[i]).space,
                (#[trigger] all[j]).space,
            ) by {
                if i < procs.len() && j < procs.len() {
                    assert(disjoint(procs[i].space, procs[j].space));
                }
            }
        },
    }
}

/// Frames that were in use and frames that were not are different frames.
proof fn lemma_apart(a: AddressSpace, b: AddressSpace, r0: Ram, f0: Frames)
    requires
        a.wf(r0, f0),
        forall|k: int| 0 <= k < b.owned@.len() ==> !f0.in_use(#[trigger] b.owned@[k]),
    ensures
        disjoint(a, b),
        disjoint(b, a),
{
    assert forall|k: int| 0 <= k < b.owned@.len() implies !a.owned@.contains(
        #[trigger] b.owned@[k],
    ) by {
        if a.owned@.contains(b.owned@[k]) {
            let m = choose|m: int| 0 <= m < a.owned@.len() && a.owned@[m] == b.owned@[k];
            assert(f0.in_use(a.owned@[m]));
        }
    }
    assert forall|k: int| 0 <= k < a.owned@.len() implies !b.owned@.contains(
        #[trigger] a.owned@[k],
    ) by {
        if b.owned@.contains(a.owned@[k]) {
            let m = choose|m: int| 0 <= m < b.owned@.len() && b.owned@[m] == a.owned@[k];
            assert(f0.in_use(a.owned@[k]));
        }
    }
}

/// What a fresh process has mapped is memory of its own: every address of it that leads
/// anywhere leads into a frame that its space owns, and to a byte that exists.
pub proof fn a_fresh_process_has_its_own_memory(
    image: Seq<u8>,
    s: AddressSpace,
    ram: Ram,
    frames: Frames,
    va: u64,
)
    requires
        s.wf(ram, frames),
        fresh_memory(image, s, ram, frames),
        crate::mm::paging::translation(ram, s.root as int, va) is Some,
    ensures
        ({
            let pa = crate::mm::paging::translation(ram, s.root as int, va)->0;
            &&& s.owned@.contains((pa - pa % 4096) as u64)
            &&& pa % 4096 == va % 4096
            &&& ram.holds(pa as int, 1)
        }),
{
    let root = s.root as int;
    assert(fresh_at(image, s, ram, frames, va));
    crate::mm::paging::paths_are_in_range(va);
    crate::mm::paging_laws::a_page_is_contiguous(ram, root, va, 0);
    let e = s.leaf(ram, crate::mm::paging::path_of(va))->0;
    let x = e & crate::mm::paging::ADDR_MASK;
    assert(frames.in_use(x));
}

/// Address spaces are separate: no address of one fresh process leads to memory that an
/// address of another leads to, the same address of both no more than any two.
pub proof fn no_two_processes_share_memory(
    one: Seq<u8>,
    other: Seq<u8>,
    a: AddressSpace,
    b: AddressSpace,
    ram: Ram,
    frames: Frames,
    va: u64,
    vb: u64,
)
    requires
        a.wf(ram, frames),
        b.wf(ram, frames),
        disjoint(a, b),
        fresh_memory(one, a, ram, frames),
        fresh_memory(other, b, ram, frames),
        crate::mm::paging::translation(ram, a.root as int, va) is Some,
        crate::mm::paging::translation(ram, b.root as int, vb) is Some,
    ensures
        ({
            let pa = crate::mm::paging::translation(ram, a.root as int, va)->0;
            let pb = crate::mm::paging::translation(ram, b.root as int, vb)->0;
            pa - pa % 4096 != pb - pb % 4096
        }),
{
    a_fresh_process_has_its_own_memory(one, a, ram, frames, va);
    a_fresh_process_has_its_own_memory(other, b, ram, frames, vb);
    let pb = crate::mm::paging::translation(ram, b.root as int, vb)->0;
    let x = (pb - pb % 4096) as u64;
    let k = choose|k: int| 0 <= k < b.owned@.len() && b.owned@[k] == x;
    assert(!a.owned@.contains(b.owned@[k]));
}

// ---- capabilities -----------------------------------------------------------------

/// Nothing but the capabilities differs.
pub open spec fn same_but_caps(p: Process, q: Process) -> bool {
    &&& q.pid == p.pid
    &&& q.name == p.name
    &&& q.space == p.space
    &&& q.entry == p.entry
    &&& q.stack_top == p.stack_top
    &&& q.arg == p.arg
    &&& q.exit_code == p.exit_code
    &&& q.irq_seen == p.irq_seen
}

/// A process, by pid.
pub fn get(table: &Table, pid: usize) -> (r: Option<&Process>)
    ensures
        match r {
            Some(p) => pid < table.procs@.len() && *p == table.procs@[pid as int],
            None => pid >= table.procs@.len(),
        },
{
    if pid < table.procs.len() {
        Some(&table.procs[pid])
    } else {
        None
    }
}

/// What giving a process a capability does, and what it says.
pub open spec fn given(
    procs: Seq<Process>,
    procs1: Seq<Process>,
    pid: usize,
    slot: usize,
    cap: Cap,
    r: Result<(), &'static str>,
) -> bool {
    &&& r == (if slot >= CAP_SLOTS {
        Err::<(), &'static str>("capability slot out of range")
    } else if pid >= procs.len() {
        Err("no such process")
    } else {
        Ok(())
    })
    &&& r is Err ==> procs1 == procs
    &&& r is Ok ==> {
        let p = procs1[pid as int];
        &&& procs1 == procs.update(pid as int, p)
        &&& same_but_caps(procs[pid as int], p)
        &&& p.caps@ == procs[pid as int].caps@.update(slot as int, Some(cap))
    }
}

/// Put a capability in a slot of a process's table.
pub fn install_cap(table: &mut Table, pid: usize, slot: usize, cap: Cap) -> (r: Result<
    (),
    &'static str,
>)
    ensures
        given(old(table).procs@, final(table).procs@, pid, slot, cap, r),
{
    if slot >= CAP_SLOTS {
        return Err("capability slot out of range");
    }
    if pid >= table.procs.len() {
        return Err("no such process");
    }
    table.procs[pid].caps[slot] = Some(cap);
    Ok(())
}

/// The capability in a slot of a process's table.
pub open spec fn cap_in(procs: Seq<Process>, pid: int, slot: int) -> Option<Cap> {
    if 0 <= slot < 8 && 0 <= pid < procs.len() {
        procs[pid].caps@[slot]
    } else {
        None
    }
}

/// Look up a slot in a process's table.
pub fn lookup_cap(table: &Table, pid: usize, slot: usize) -> (r: Option<Cap>)
    ensures
        r == cap_in(table.procs@, pid as int, slot as int),
{
    if slot >= CAP_SLOTS {
        return None;
    }
    if pid >= table.procs.len() {
        return None;
    }
    table.procs[pid].caps[slot]
}

/// Whether revoking `cap_id` kills what is in a slot.
pub open spec fn dies(l: Seq<crate::cap::Provenance>, cap_id: u64, c: Option<Cap>) -> bool {
    c matches Some(c) && !c.revoked && crate::cap::descends(l, c.id, cap_id)
}

/// A slot after `cap_id` has been revoked.
pub open spec fn after_revoking(
    l: Seq<crate::cap::Provenance>,
    cap_id: u64,
    c: Option<Cap>,
) -> Option<Cap> {
    if dies(l, cap_id, c) {
        Some(Cap { revoked: true, ..c->0 })
    } else {
        c
    }
}

/// How many of the first `n` slots revoking `cap_id` kills.
pub open spec fn deaths_in(
    l: Seq<crate::cap::Provenance>,
    cap_id: u64,
    caps: Seq<Option<Cap>>,
    n: int,
) -> int
    decreases n,
{
    if n <= 0 {
        0
    } else {
        deaths_in(l, cap_id, caps, n - 1) + if dies(l, cap_id, caps[n - 1]) {
            1int
        } else {
            0
        }
    }
}

/// How many slots of the first `n` processes revoking `cap_id` kills.
pub open spec fn deaths(
    l: Seq<crate::cap::Provenance>,
    cap_id: u64,
    procs: Seq<Process>,
    n: int,
) -> int
    decreases n,
{
    if n <= 0 {
        0
    } else {
        deaths(l, cap_id, procs, n - 1) + deaths_in(l, cap_id, procs[n - 1].caps@, 8)
    }
}

/// Whether revoking `cap_id` kills a capability to channel `ch`, among the first
/// `n` processes and the first `m` slots of the next.
pub open spec fn cuts_channel(
    l: Seq<crate::cap::Provenance>,
    cap_id: u64,
    procs: Seq<Process>,
    n: int,
    m: int,
    ch: usize,
) -> bool {
    exists|i: int, j: int|
        #![trigger procs[i].caps@[j]]
        0 <= i < procs.len() && 0 <= j < 8 && (i < n || (i == n && j < m)) && dies(
            l,
            cap_id,
            procs[i].caps@[j],
        ) && (procs[i].caps@[j]->0).obj == Obj::Channel(ch)
}

/// Whether a thread waits for a channel that revoking `cap_id` cuts.
pub open spec fn must_notice(
    l: Seq<crate::cap::Provenance>,
    cap_id: u64,
    procs: Seq<Process>,
    t: crate::sched::Thread,
) -> bool {
    exists|ch: usize| #[trigger]
        cuts_channel(l, cap_id, procs, procs.len() as int, 0, ch) && t.state
            == crate::sched::State::Blocked(ch as u64)
}

fn contains(list: &Vec<usize>, x: usize) -> (r: bool)
    ensures
        r == list@.contains(x),
{
    let mut i: usize = 0;
    while i < list.len()
        invariant
            i <= list@.len(),
            forall|k: int| 0 <= k < i ==> list@[k] != x,
        decreases list@.len() - i,
    {
        if list[i] == x {
            return true;
        }
        i = i + 1;
    }
    false
}

proof fn lemma_deaths_in_bound(
    l: Seq<crate::cap::Provenance>,
    cap_id: u64,
    caps: Seq<Option<Cap>>,
    n: int,
)
    requires
        0 <= n,
    ensures
        0 <= deaths_in(l, cap_id, caps, n) <= n,
    decreases n,
{
    if n > 0 {
        lemma_deaths_in_bound(l, cap_id, caps, n - 1);
    }
}

proof fn lemma_deaths_bound(
    l: Seq<crate::cap::Provenance>,
    cap_id: u64,
    procs: Seq<Process>,
    n: int,
)
    requires
        0 <= n,
    ensures
        0 <= deaths(l, cap_id, procs, n) <= 8 * n,
    decreases n,
{
    if n > 0 {
        lemma_deaths_bound(l, cap_id, procs, n - 1);
        lemma_deaths_in_bound(l, cap_id, procs[n - 1].caps@, 8);
    }
}

/// What revoking a capability does to the processes and to the threads, and how many it counts.
pub open spec fn struck(
    l: Seq<crate::cap::Provenance>,
    cap_id: u64,
    procs: Seq<Process>,
    procs1: Seq<Process>,
    ts: Seq<crate::sched::Thread>,
    ts1: Seq<crate::sched::Thread>,
    killed: usize,
) -> bool {
    &&& killed == deaths(
        l,
        cap_id,
        procs,
        procs.len() as int,
    )
    &&& procs1.len() == procs.len()
    &&& forall|i: int|
        0 <= i < procs.len() ==> same_but_caps(
            procs[i],
            #[trigger] procs1[i],
        )
    &&& forall|i: int, j: int|
        0 <= i < procs.len() && 0 <= j < 8
            ==> #[trigger] procs1[i].caps@[j] == after_revoking(
            l,
            cap_id,
            procs[i].caps@[j],
        )
    &&& ts1.len() == ts.len()
    &&& forall|k: int|
        0 <= k < ts.len() ==> #[trigger] ts1[k] == (
        if must_notice(l, cap_id, procs, ts[k]) {
            crate::sched::Thread {
                state: crate::sched::State::Runnable,
                ..ts[k]
            }
        } else {
            ts[k]
        })
}

/// Revoke `cap_id` and everything derived from it, wherever it ended up. Gives
/// how many capabilities died.
///
/// This is the operation the whole capability design exists for: one edge cut,
/// the entire subtree of delegated authority dies with it — including in
/// processes that were never told where their capability came from. A process
/// blocked on a revoked channel must not wait forever; it wakes and finds its
/// capability dead.
#[verifier::rlimit(40)]
pub fn revoke(table: &mut Table, ledger: &Ledger, s: &mut Scheduler, cap_id: u64) -> (killed: usize)
    requires
        crate::cap::rooted(ledger@),
        8 * old(table).procs@.len() <= usize::MAX,
    ensures
        old(s).same_but_threads(*final(s)),
        struck(
            ledger@,
            cap_id,
            old(table).procs@,
            final(table).procs@,
            old(s).threads@,
            final(s).threads@,
            killed,
        ),
{
    let ghost l = ledger@;
    let ghost procs = table.procs@;
    let mut killed: usize = 0;
    let mut affected: Vec<usize> = Vec::new();
    let mut i: usize = 0;
    while i < table.procs.len()
        invariant
            crate::cap::rooted(ledger@),
            l == ledger@,
            procs == old(table).procs@,
            8 * procs.len() <= usize::MAX,
            table.procs@.len() == procs.len(),
            i <= procs.len(),
            killed == deaths(l, cap_id, procs, i as int),
            forall|a: int|
                0 <= a < procs.len() ==> same_but_caps(procs[a], #[trigger] table.procs@[a]),
            forall|a: int, b: int|
                0 <= a < i && 0 <= b < 8 ==> #[trigger] table.procs@[a].caps@[b] == after_revoking(
                    l,
                    cap_id,
                    procs[a].caps@[b],
                ),
            forall|a: int|
                i <= a < procs.len() ==> (#[trigger] table.procs@[a]).caps@ == procs[a].caps@,
            forall|ch: usize| #[trigger]
                affected@.contains(ch) == cuts_channel(l, cap_id, procs, i as int, 0, ch),
        decreases procs.len() - i,
    {
        let mut j: usize = 0;
        while j < 8
            invariant
                crate::cap::rooted(ledger@),
                l == ledger@,
                8 * procs.len() <= usize::MAX,
                table.procs@.len() == procs.len(),
                i < procs.len(),
                j <= 8,
                killed == deaths(l, cap_id, procs, i as int) + deaths_in(
                    l,
                    cap_id,
                    procs[i as int].caps@,
                    j as int,
                ),
                forall|a: int|
                    0 <= a < procs.len() ==> same_but_caps(procs[a], #[trigger] table.procs@[a]),
                forall|a: int, b: int|
                    0 <= a < i && 0 <= b < 8 ==> #[trigger] table.procs@[a].caps@[b]
                        == after_revoking(l, cap_id, procs[a].caps@[b]),
                forall|b: int|
                    0 <= b < 8 ==> #[trigger] table.procs@[i as int].caps@[b] == (if b < j {
                        after_revoking(l, cap_id, procs[i as int].caps@[b])
                    } else {
                        procs[i as int].caps@[b]
                    }),
                forall|a: int|
                    i < a < procs.len() ==> (#[trigger] table.procs@[a]).caps@ == procs[a].caps@,
                forall|ch: usize| #[trigger]
                    affected@.contains(ch) == cuts_channel(
                        l,
                        cap_id,
                        procs,
                        i as int,
                        j as int,
                        ch,
                    ),
            decreases 8 - j,
        {
            let ghost before = affected@;
            let slot = table.procs[i].caps[j];
            assert(slot == procs[i as int].caps@[j as int]);
            proof {
                lemma_deaths_bound(l, cap_id, procs, i as int);
                lemma_deaths_in_bound(l, cap_id, procs[i as int].caps@, j as int);
            }
            match slot {
                Some(c) => {
                    if !c.revoked && is_descendant(ledger, c.id, cap_id) {
                        table.procs[i].caps[j] = Some(Cap { revoked: true, ..c });
                        killed = killed + 1;
                        match c.obj {
                            Obj::Channel(ch) => {
                                if !contains(&affected, ch) {
                                    affected.push(ch);
                                }
                                proof {
                                    assert(affected@.contains(ch)) by {
                                        if !before.contains(ch) {
                                            assert(affected@[before.len() as int] == ch);
                                        }
                                    }
                                }
                            },
                            _ => {},
                        }
                    }
                },
                None => {},
            }
            proof {
                assert forall|ch: usize| #[trigger] affected@.contains(ch) == cuts_channel(
                    l,
                    cap_id,
                    procs,
                    i as int,
                    j + 1,
                    ch,
                ) by {
                    lemma_cut_step(l, cap_id, procs, i as int, j as int, ch);
                    lemma_pushed(before, affected@, ch);
                }
            }
            j = j + 1;
        }
        proof {
            assert forall|ch: usize| #[trigger] affected@.contains(ch) == cuts_channel(
                l,
                cap_id,
                procs,
                i + 1,
                0,
                ch,
            ) by {
                lemma_cut_row(l, cap_id, procs, i as int, ch);
            }
        }
        i = i + 1;
    }
    let ghost ts = s.threads@;
    let mut k: usize = 0;
    while k < affected.len()
        invariant
            k <= affected@.len(),
            ts == old(s).threads@,
            s.threads@.len() == ts.len(),
            old(s).same_but_threads(*s),
            forall|m: int|
                0 <= m < ts.len() ==> #[trigger] s.threads@[m] == (if waits_for(
                    affected@.take(k as int),
                    ts[m],
                ) {
                    crate::sched::Thread { state: crate::sched::State::Runnable, ..ts[m] }
                } else {
                    ts[m]
                }),
        decreases affected@.len() - k,
    {
        let ghost mid = s.threads@;
        let ch = affected[k];
        wake_all_on(s, ch as u64);
        proof {
            let head = affected@.take(k as int);
            let more = affected@.take(k + 1);
            assert(more =~= head.push(ch));
            assert forall|m: int| 0 <= m < ts.len() implies #[trigger] s.threads@[m] == (
            if waits_for(more, ts[m]) {
                crate::sched::Thread { state: crate::sched::State::Runnable, ..ts[m] }
            } else {
                ts[m]
            }) by {
                lemma_waits_for_more(head, ch, ts[m]);
                assert(mid[m] == (if waits_for(head, ts[m]) {
                    crate::sched::Thread { state: crate::sched::State::Runnable, ..ts[m] }
                } else {
                    ts[m]
                }));
            }
        }
        k = k + 1;
    }
    proof {
        assert(affected@.take(k as int) =~= affected@);
        assert forall|m: int| 0 <= m < ts.len() implies waits_for(affected@, #[trigger] ts[m])
            == must_notice(l, cap_id, procs, ts[m]) by {
            lemma_waits_is_notice(l, cap_id, procs, affected@, ts[m]);
        }
    }
    killed
}

/// Whether a thread waits for one of the listed channels.
spec fn waits_for(list: Seq<usize>, t: crate::sched::Thread) -> bool {
    exists|k: int|
        0 <= k < list.len() && t.state == crate::sched::State::Blocked((#[trigger] list[k]) as u64)
}

proof fn lemma_waits_for_more(list: Seq<usize>, ch: usize, t: crate::sched::Thread)
    ensures
        waits_for(list.push(ch), t) == (waits_for(list, t) || t.state
            == crate::sched::State::Blocked(ch as u64)),
{
    let more = list.push(ch);
    if waits_for(list, t) {
        let k = choose|k: int|
            0 <= k < list.len() && t.state == crate::sched::State::Blocked(
                (#[trigger] list[k]) as u64,
            );
        assert(more[k] == list[k]);
    }
    if t.state == crate::sched::State::Blocked(ch as u64) {
        assert(more[list.len() as int] == ch);
    }
    if waits_for(more, t) {
        let k = choose|k: int|
            0 <= k < more.len() && t.state == crate::sched::State::Blocked(
                (#[trigger] more[k]) as u64,
            );
        if k < list.len() {
            assert(list[k] == more[k]);
        }
    }
}

proof fn lemma_waits_is_notice(
    l: Seq<crate::cap::Provenance>,
    cap_id: u64,
    procs: Seq<Process>,
    list: Seq<usize>,
    t: crate::sched::Thread,
)
    requires
        forall|ch: usize| #[trigger]
            list.contains(ch) == cuts_channel(l, cap_id, procs, procs.len() as int, 0, ch),
    ensures
        waits_for(list, t) == must_notice(l, cap_id, procs, t),
{
    if waits_for(list, t) {
        let k = choose|k: int|
            0 <= k < list.len() && t.state == crate::sched::State::Blocked(
                (#[trigger] list[k]) as u64,
            );
        assert(list.contains(list[k]));
        assert(cuts_channel(l, cap_id, procs, procs.len() as int, 0, list[k]));
    }
    if must_notice(l, cap_id, procs, t) {
        let ch = choose|ch: usize| #[trigger]
            cuts_channel(l, cap_id, procs, procs.len() as int, 0, ch) && t.state
                == crate::sched::State::Blocked(ch as u64);
        assert(list.contains(ch));
        let k = choose|k: int| 0 <= k < list.len() && list[k] == ch;
        assert(t.state == crate::sched::State::Blocked(list[k] as u64));
    }
}

proof fn lemma_pushed(before: Seq<usize>, after: Seq<usize>, ch: usize)
    requires
        after == before || after == before.push(after.last()),
    ensures
        after.contains(ch) == (before.contains(ch) || (after != before && after.last() == ch)),
{
    if after != before {
        if before.contains(ch) {
            let k = choose|k: int| 0 <= k < before.len() && before[k] == ch;
            assert(after[k] == ch);
        }
        if after.contains(ch) {
            let k = choose|k: int| 0 <= k < after.len() && after[k] == ch;
            if k < before.len() {
                assert(before[k] == ch);
            }
        }
        if after.last() == ch {
            assert(after[after.len() - 1] == ch);
        }
    }
}

proof fn lemma_cut_step(
    l: Seq<crate::cap::Provenance>,
    cap_id: u64,
    procs: Seq<Process>,
    i: int,
    j: int,
    ch: usize,
)
    requires
        0 <= i < procs.len(),
        0 <= j < 8,
    ensures
        cuts_channel(l, cap_id, procs, i, j + 1, ch) == (cuts_channel(l, cap_id, procs, i, j, ch)
            || (dies(l, cap_id, procs[i].caps@[j]) && (procs[i].caps@[j]->0).obj == Obj::Channel(
            ch,
        ))),
{
    if cuts_channel(l, cap_id, procs, i, j + 1, ch) {
        let (a, b) = choose|a: int, b: int|
            #![trigger procs[a].caps@[b]]
            0 <= a < procs.len() && 0 <= b < 8 && (a < i || (a == i && b < j + 1)) && dies(
                l,
                cap_id,
                procs[a].caps@[b],
            ) && (procs[a].caps@[b]->0).obj == Obj::Channel(ch);
        if !(a == i && b == j) {
            assert(dies(l, cap_id, procs[a].caps@[b]));
        }
    }
}

proof fn lemma_cut_row(
    l: Seq<crate::cap::Provenance>,
    cap_id: u64,
    procs: Seq<Process>,
    i: int,
    ch: usize,
)
    requires
        0 <= i < procs.len(),
    ensures
        cuts_channel(l, cap_id, procs, i, 8, ch) == cuts_channel(l, cap_id, procs, i + 1, 0, ch),
{
    if cuts_channel(l, cap_id, procs, i, 8, ch) {
        let (a, b) = choose|a: int, b: int|
            #![trigger procs[a].caps@[b]]
            0 <= a < procs.len() && 0 <= b < 8 && (a < i || (a == i && b < 8)) && dies(
                l,
                cap_id,
                procs[a].caps@[b],
            ) && (procs[a].caps@[b]->0).obj == Obj::Channel(ch);
        assert(dies(l, cap_id, procs[a].caps@[b]));
    }
    if cuts_channel(l, cap_id, procs, i + 1, 0, ch) {
        let (a, b) = choose|a: int, b: int|
            #![trigger procs[a].caps@[b]]
            0 <= a < procs.len() && 0 <= b < 8 && (a < i + 1 || (a == i + 1 && b < 0)) && dies(
                l,
                cap_id,
                procs[a].caps@[b],
            ) && (procs[a].caps@[b]->0).obj == Obj::Channel(ch);
        assert(dies(l, cap_id, procs[a].caps@[b]));
    }
}

/// Hand every process to `f`, in the order of their pids.
pub fn for_each<F: Fn(&Process)>(table: &Table, f: F)
    requires
        forall|i: int| 0 <= i < table.procs@.len() ==> call_requires(f, (&#[trigger] table.procs@[i],)),
    ensures
        forall|i: int|
            0 <= i < table.procs@.len() ==> call_ensures(f, (&#[trigger] table.procs@[i],), ()),
{
    let mut i: usize = 0;
    while i < table.procs.len()
        invariant
            i <= table.procs@.len(),
            forall|k: int|
                0 <= k < table.procs@.len() ==> call_requires(f, (&#[trigger] table.procs@[k],)),
            forall|k: int| 0 <= k < i ==> call_ensures(f, (&#[trigger] table.procs@[k],), ()),
        decreases table.procs@.len() - i,
    {
        f(&table.procs[i]);
        i = i + 1;
    }
}

pub fn count(table: &Table) -> (n: usize)
    ensures
        n == table.procs@.len(),
{
    table.procs.len()
}

// ---- what revocation promises -------------------------------------------------------

/// After a revocation nothing that descends from the revoked capability is live,
/// wherever it went; everything else is exactly what it was.
pub proof fn revocation_kills_exactly_the_subtree(
    l: Seq<crate::cap::Provenance>,
    cap_id: u64,
    c: Option<Cap>,
)
    ensures
        ({
            let d = after_revoking(l, cap_id, c);
            &&& c is Some == d is Some
            &&& d matches Some(d) ==> {
                &&& crate::cap::descends(l, d.id, cap_id) ==> d.revoked
                &&& !crate::cap::descends(l, d.id, cap_id) ==> Some(d) == c
                &&& d == (Cap { revoked: d.revoked, ..c->0 })
            }
        }),
{
}

/// Revoking twice is revoking once.
pub proof fn revocation_is_idempotent(
    l: Seq<crate::cap::Provenance>,
    cap_id: u64,
    c: Option<Cap>,
)
    ensures
        after_revoking(l, cap_id, after_revoking(l, cap_id, c)) == after_revoking(l, cap_id, c),
        !dies(l, cap_id, after_revoking(l, cap_id, c)),
{
}

/// Revoking a capability kills at least what revoking anything derived from it
/// would.
pub proof fn revoking_an_ancestor_kills_more(
    l: Seq<crate::cap::Provenance>,
    ancestor: u64,
    id: u64,
    c: Option<Cap>,
)
    requires
        crate::cap::descends(l, id, ancestor),
    ensures
        dies(l, id, c) ==> dies(l, ancestor, c),
{
    if dies(l, id, c) {
        crate::cap::descent_is_transitive(l, (c->0).id, id, ancestor);
    }
}

} // verus!
