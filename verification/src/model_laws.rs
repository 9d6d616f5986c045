//! What the model store promises.
use vstd::prelude::*;
use crate::mm::frames::Frames;
use crate::mm::paging::{Path, Perm};
use crate::mm::ram::Ram;
use crate::model::{Claim, Fault, ModelView, PageState, StoreView, World};
use crate::proc::Process;

verus! {

proof fn lemma_first_with_hash(models: Seq<ModelView>, hash: u64, i: int)
    requires
        0 <= i,
    ensures
        match crate::model::find_hash(models, hash, i) {
            Some(k) => i <= k < models.len() && models[k].hash == hash && forall|j: int|
                i <= j < k ==> (#[trigger] models[j]).hash != hash,
            None => forall|j: int| i <= j < models.len() ==> (#[trigger] models[j]).hash != hash,
        },
    decreases models.len() - i,
{
    if i < models.len() && models[i].hash != hash {
        lemma_first_with_hash(models, hash, i + 1);
    }
}

proof fn lemma_hash_is_found(models: Seq<ModelView>, hash: u64, i: int, k: int)
    requires
        0 <= i <= k < models.len(),
        models[k].hash == hash,
        forall|j: int| i <= j < k ==> (#[trigger] models[j]).hash != hash,
    ensures
        crate::model::find_hash(models, hash, i) == Some(k),
    decreases k - i,
{
    if i < k {
        lemma_hash_is_found(models, hash, i + 1, k);
    }
}

proof fn lemma_first_with_id(models: Seq<ModelView>, id: u64, i: int)
    requires
        0 <= i,
    ensures
        match crate::model::find_id(models, id, i) {
            Some(k) => i <= k < models.len() && models[k].id == id && forall|j: int|
                i <= j < k ==> (#[trigger] models[j]).id != id,
            None => forall|j: int| i <= j < models.len() ==> (#[trigger] models[j]).id != id,
        },
    decreases models.len() - i,
{
    if i < models.len() && models[i].id != id {
        lemma_first_with_id(models, id, i + 1);
    }
}

proof fn lemma_id_is_found(models: Seq<ModelView>, id: u64, i: int, k: int)
    requires
        0 <= i <= k < models.len(),
        models[k].id == id,
        forall|j: int| i <= j < k ==> (#[trigger] models[j]).id != id,
    ensures
        crate::model::find_id(models, id, i) == Some(k),
    decreases k - i,
{
    if i < k {
        lemma_id_is_found(models, id, i + 1, k);
    }
}

/// A model whose entry is replaced by one with the same number is found where it
/// was.
proof fn lemma_still_found(v: StoreView, id: u64, m: ModelView)
    requires
        crate::model::find_id(v.models, id, 0) is Some,
        m.id == id,
    ensures
        crate::model::find_id(
            v.with_model(crate::model::find_id(v.models, id, 0)->0, m).models,
            id,
            0,
        ) == crate::model::find_id(v.models, id, 0),
{
    lemma_first_with_id(v.models, id, 0);
    let i = crate::model::find_id(v.models, id, 0)->0;
    let w = v.with_model(i, m).models;
    assert forall|j: int| 0 <= j < i implies (#[trigger] w[j]).id != id by {
        assert(w[j] == v.models[j]);
    }
    lemma_id_is_found(w, id, 0, i);
}

/// While one thread reads a page, every other that wants it waits rather than
/// reading it again.
pub proof fn a_page_is_read_by_one_thread_at_a_time(v: StoreView, id: u64, index: usize)
    requires
        crate::model::claim_outcome(v, id, index).1 is Mine,
    ensures
        crate::model::claim_outcome(crate::model::claim_outcome(v, id, index).0, id, index) == (
            crate::model::claim_outcome(v, id, index).0,
            Claim::Busy,
        ),
{
    lemma_first_with_id(v.models, id, 0);
    let i = crate::model::find_id(v.models, id, 0)->0;
    let m = v.models[i].faulted().with_page(index as int, PageState::Loading);
    lemma_still_found(v, id, m);
}

/// Once a page has been read, every further fault on it is served from the same
/// frame, whichever process it comes from.
pub proof fn a_page_that_was_read_is_shared(v: StoreView, id: u64, index: usize, frame: u64)
    requires
        crate::model::claim_outcome(v, id, index).1 is Mine,
    ensures
        crate::model::claim_outcome(
            crate::model::fault_store(v, id, index, Some(frame)),
            id,
            index,
        ).1 == Claim::Resident(frame),
{
    lemma_first_with_id(v.models, id, 0);
    let i = crate::model::find_id(v.models, id, 0)->0;
    let m = v.models[i].faulted().with_page(index as int, PageState::Loading);
    lemma_still_found(v, id, m);
    let w = crate::model::claim_outcome(v, id, index).0;
    lemma_still_found(w, id, m.with_page(index as int, PageState::Resident(frame)));
}

/// A page that could not be read can be claimed again.
pub proof fn a_failed_read_can_be_retried(v: StoreView, id: u64, index: usize)
    requires
        crate::model::claim_outcome(v, id, index).1 is Mine,
    ensures
        crate::model::claim_outcome(
            crate::model::fault_store(v, id, index, None),
            id,
            index,
        ).1 is Mine,
{
    lemma_first_with_id(v.models, id, 0);
    let i = crate::model::find_id(v.models, id, 0)->0;
    let m = v.models[i].faulted().with_page(index as int, PageState::Loading);
    lemma_still_found(v, id, m);
    let w = crate::model::claim_outcome(v, id, index).0;
    lemma_still_found(w, id, m.with_page(index as int, PageState::Absent));
}

/// Every fault that is counted either found its page or set out to read it: the
/// faults less the shared hits grow by one exactly when a page has to be read.
pub proof fn faults_are_hits_and_reads(v: StoreView, id: u64, index: usize, frame: Option<u64>)
    requires
        forall|i: int|
            0 <= i < v.models.len() ==> (#[trigger] v.models[i]).faults < u64::MAX,
        v.shared_hits < u64::MAX,
    ensures
        ({
            let w = crate::model::fault_store(v, id, index, frame);
            let c = crate::model::claim_outcome(v, id, index).1;
            let faulted: int = if c is Resident || c is Mine {
                1
            } else {
                0
            };
            &&& sum_of_faults(w.models, w.models.len() as int) == sum_of_faults(
                v.models,
                v.models.len() as int,
            ) + faulted
            &&& w.shared_hits - v.shared_hits == faulted - if c is Mine {
                1int
            } else {
                0
            }
        }),
{
    lemma_first_with_id(v.models, id, 0);
    let w = crate::model::fault_store(v, id, index, frame);
    match crate::model::find_id(v.models, id, 0) {
        None => {},
        Some(i) => {
            let c = crate::model::claim_outcome(v, id, index).1;
            if c is Mine {
                let m = v.models[i].faulted().with_page(index as int, PageState::Loading);
                lemma_still_found(v, id, m);
            }
            lemma_sum_changes_at(v.models, w.models, i, v.models.len() as int);
        },
    }
}

/// The faults of the first `n` models, added up.
pub open spec fn sum_of_faults(models: Seq<ModelView>, n: int) -> int
    decreases n,
{
    if n <= 0 {
        0
    } else {
        sum_of_faults(models, n - 1) + models[n - 1].faults
    }
}

proof fn lemma_sum_changes_at(a: Seq<ModelView>, b: Seq<ModelView>, i: int, n: int)
    requires
        a.len() == b.len(),
        0 <= i < a.len(),
        0 <= n <= a.len(),
        forall|k: int| 0 <= k < a.len() && k != i ==> #[trigger] a[k] == b[k],
    ensures
        sum_of_faults(b, n) == sum_of_faults(a, n) + if i < n {
            b[i].faults - a[i].faults
        } else {
            0
        },
    decreases n,
{
    if n > 0 {
        lemma_sum_changes_at(a, b, i, n - 1);
    }
}

/// A page that has been served shows the bytes of the file: the process's walk
/// leads, read-only, to a frame that holds that page of the file and zeros past
/// its end.
pub proof fn a_served_page_shows_the_file(
    d0: crate::blk::DiskView,
    f0: Frames,
    r0: Ram,
    d1: crate::blk::DiskView,
    f1: Frames,
    r1: Ram,
    start: u64,
    size: usize,
    index: usize,
    frame: u64,
    p0: Seq<Process>,
    p1: Seq<Process>,
    f2: Frames,
    r2: Ram,
    pid: usize,
    va: u64,
)
    requires
        crate::model::loaded(d0, f0, r0, d1, f1, r1, start, size, index, Some(frame)),
        crate::proc::spaces_ok(p0, r1, f1),
        crate::model::unowned(p0, frame),
        crate::model::shown(p0, f1, r1, p1, f2, r2, pid, va, frame, true),
        va < crate::mm::paging::USER_LIMIT,
    ensures
        p1[pid as int].space.leaf(r2, crate::mm::paging::path_of(va)) == Some(
            crate::mm::paging::page_descriptor(frame, Perm::UserReadOnly),
        ),
        forall|i: int|
            0 <= i < 4096 ==> #[trigger] r2.byte(frame + i) == crate::model::page_byte(
                d0.sectors,
                start,
                size as int,
                index as int,
                i,
            ),
{
    let s0 = p0[pid as int].space;
    let s1 = p1[pid as int].space;
    crate::mm::paging::paths_are_in_range(va);
    let q = crate::mm::paging::path_of(va);
    assert(crate::mm::paging::leaf(r2, s0.root as int, q) == crate::mm::paging::mapped_leaf(
        r1,
        s0.root as int,
        va,
        frame,
        Perm::UserReadOnly,
        1,
        q,
    ));
    assert(crate::mm::paging::mapped_leaf(
        r1,
        s0.root as int,
        va,
        frame,
        Perm::UserReadOnly,
        1,
        q,
    ) == Some(crate::mm::paging::page_descriptor(frame, Perm::UserReadOnly)));
    assert(f1.in_use(frame));
    assert(!s0.tables@.contains(frame)) by {
        if s0.tables@.contains(frame) {
            let k = choose|k: int| 0 <= k < s0.tables@.len() && s0.tables@[k] == frame;
            assert(p0[pid as int].space.wf(r1, f1));
            assert(s0.owned@.contains(s0.tables@[k]));
        }
    }
    assert(p0[pid as int].space.wf(r1, f1));
    crate::mm::paging::frames_in_use_are_kept(s0, r1, f1, s1, r2, f2, frame);
    assert forall|i: int| 0 <= i < 4096 implies #[trigger] r2.byte(frame + i)
        == crate::model::page_byte(d0.sectors, start, size as int, index as int, i) by {
        assert(r2.byte(frame + i) == r1.byte(frame + i));
    }
}

/// No page table shows a page that was dropped: where every walk that led to its
/// frame went through an address the model was attached at, none does afterwards.
pub proof fn no_page_table_shows_a_dropped_page(
    m0: Seq<ModelView>,
    m1: Seq<ModelView>,
    procs: Seq<Process>,
    r0: Ram,
    r1: Ram,
    i: int,
    j: int,
    frame: u64,
)
    requires
        0 <= i < m0.len(),
        0 <= j < m0[i].pages.len(),
        m0[i].pages[j] == PageState::Resident(frame),
        m1[i].pages[j] is Absent,
        // The walks afterwards are those before, less what was hidden.
        forall|p: int, q: Path|
            0 <= p < procs.len() && crate::mm::paging::path_ok(q)
                ==> #[trigger] procs[p].space.leaf(r1, q) == (if crate::model::hidden(
                m0,
                m1,
                p,
                q,
            ) {
                None
            } else {
                procs[p].space.leaf(r0, q)
            }),
        // Every walk that led to the frame went through an attachment.
        forall|p: int, q: Path|
            0 <= p < procs.len() && crate::mm::paging::path_ok(q) ==> ((
            #[trigger] procs[p].space.leaf(r0, q)) matches Some(e) ==> (e
                & crate::mm::paging::ADDR_MASK == frame ==> crate::model::shows_at(
                m0[i].mappings,
                m0[i].mappings.len() as int,
                j,
                p,
                q,
            ))),
    ensures
        forall|p: int, q: Path|
            0 <= p < procs.len() && crate::mm::paging::path_ok(q) ==> ((
            #[trigger] procs[p].space.leaf(r1, q)) matches Some(e) ==> e
                & crate::mm::paging::ADDR_MASK != frame),
{
    assert forall|p: int, q: Path|
        0 <= p < procs.len() && crate::mm::paging::path_ok(q) implies ((
    #[trigger] procs[p].space.leaf(r1, q)) matches Some(e) ==> e & crate::mm::paging::ADDR_MASK
        != frame) by {
        match procs[p].space.leaf(r1, q) {
            Some(e) => {
                assert(procs[p].space.leaf(r0, q) == Some(e));
                if e & crate::mm::paging::ADDR_MASK == frame {
                    let ms = m0[i].mappings;
                    let k = choose|k: int|
                        0 <= k < ms.len() && (#[trigger] ms[k]).pid == p && q
                            == crate::mm::paging::path_of((ms[k].base + j * 4096) as u64);
                    assert(crate::model::dropped(m0[i].pages, m1[i].pages, j));
                    assert(ms[k].pid == p);
                    assert(crate::model::hidden_in(
                        m0[i].pages,
                        m1[i].pages,
                        m0[i].mappings,
                        p,
                        q,
                    ));
                    assert(crate::model::hidden(m0, m1, p, q));
                }
            },
            None => {},
        }
    }
}

/// A dropped page comes back when it is touched: the next fault reads it again.
pub proof fn a_dropped_page_can_come_back(v: StoreView, id: u64, index: usize)
    requires
        crate::model::find_id(v.models, id, 0) matches Some(i) && index < v.models[i].pages.len()
            && v.models[i].pages[index as int] is Absent,
    ensures
        crate::model::claim_outcome(v, id, index).1 is Mine,
{
}

/// The resident pages of the first `n` models, added up.
pub open spec fn residents(models: Seq<ModelView>, n: int) -> int
    decreases n,
{
    if n <= 0 {
        0
    } else {
        residents(models, n - 1) + crate::model::resident_among(
            models[n - 1].pages,
            models[n - 1].pages.len() as int,
        )
    }
}

proof fn lemma_resident_update(pages: Seq<PageState>, j: int, p: PageState, n: int)
    requires
        0 <= j < pages.len(),
        0 <= n <= pages.len(),
    ensures
        crate::model::resident_among(pages.update(j, p), n) == crate::model::resident_among(
            pages,
            n,
        ) + if j < n {
            (if p is Resident {
                1int
            } else {
                0
            }) - (if pages[j] is Resident {
                1int
            } else {
                0
            })
        } else {
            0
        },
    decreases n,
{
    if n > 0 {
        lemma_resident_update(pages, j, p, n - 1);
    }
}

proof fn lemma_residents_update(models: Seq<ModelView>, i: int, m: ModelView, n: int)
    requires
        0 <= i < models.len(),
        0 <= n <= models.len(),
    ensures
        residents(models.update(i, m), n) == residents(models, n) + if i < n {
            crate::model::resident_among(m.pages, m.pages.len() as int)
                - crate::model::resident_among(models[i].pages, models[i].pages.len() as int)
        } else {
            0
        },
    decreases n,
{
    if n > 0 {
        lemma_residents_update(models, i, m, n - 1);
    }
}

proof fn lemma_no_page_resident(pages: Seq<PageState>, n: int)
    requires
        0 <= n <= pages.len(),
        forall|j: int| 0 <= j < n ==> !(#[trigger] pages[j] is Resident),
    ensures
        crate::model::resident_among(pages, n) == 0,
    decreases n,
{
    if n > 0 {
        lemma_no_page_resident(pages, n - 1);
    }
}

proof fn lemma_nothing_resident(models: Seq<ModelView>, n: int)
    requires
        0 <= n <= models.len(),
        crate::model::lists_residents(models, Seq::empty()),
    ensures
        residents(models, n) == 0,
    decreases n,
{
    reveal(crate::model::lists_residents);
    if n > 0 {
        lemma_nothing_resident(models, n - 1);
        let pages = models[n - 1].pages;
        assert forall|j: int| 0 <= j < pages.len() implies !(#[trigger] pages[j] is Resident) by {
            if pages[j] is Resident {
                assert(crate::model::is_resident(models, (n - 1, j)));
                assert(Seq::<(int, int)>::empty().contains((n - 1, j)));
            }
        }
        lemma_no_page_resident(pages, pages.len() as int);
    }
}

/// The store knows how many pages are resident: its count is what going through every
/// page of every model gives.
pub proof fn the_resident_pages_are_counted(v: StoreView)
    requires
        v.wf(),
    ensures
        v.resident == residents(v.models, v.models.len() as int),
    decreases v.order.len(),
{
    let n = v.models.len() as int;
    if v.order.len() == 0 {
        assert(v.order =~= Seq::empty());
        lemma_nothing_resident(v.models, n);
    } else {
        let w = crate::model::without_newest(v);
        crate::model::dropping_keeps_the_order(v);
        the_resident_pages_are_counted(w);
        let (i, j) = v.order.last();
        let pages = v.models[i].pages;
        lemma_residents_update(v.models, i, w.models[i], n);
        lemma_resident_update(pages, j, PageState::Absent, pages.len() as int);
    }
}

/// What is left after dropping pages, for a page anywhere in the order.
proof fn lemma_reclaimed(v: StoreView, want: nat, k: int)
    requires
        v.wf(),
        0 <= k < v.order.len(),
    ensures
        ({
            let w = crate::model::reclaimed(v, want).0;
            &&& w.models.len() == v.models.len()
            &&& w.models[v.order[k].0].pages.len() == v.models[v.order[k].0].pages.len()
            &&& w.models[v.order[k].0].pages[v.order[k].1] == if k < v.order.len() - want {
                v.models[v.order[k].0].pages[v.order[k].1]
            } else {
                PageState::Absent
            }
        }),
    decreases want,
{
    reveal(crate::model::lists_residents);
    assert(crate::model::is_resident(v.models, v.order[k]));
    if want > 0 {
        let w = crate::model::without_newest(v);
        crate::model::dropping_keeps_the_order(v);
        if k < v.order.len() - 1 {
            assert(v.order[k] != v.order[v.order.len() - 1]);
            assert(w.order[k] == v.order[k]);
            lemma_reclaimed(w, (want - 1) as nat, k);
        } else {
            lemma_absent_stays(w, (want - 1) as nat, v.order[k]);
        }
    }
}

/// A page that is not resident is not touched.
proof fn lemma_absent_stays(v: StoreView, want: nat, page: (int, int))
    requires
        v.wf(),
        0 <= page.0 < v.models.len(),
        0 <= page.1 < v.models[page.0].pages.len(),
        !crate::model::is_resident(v.models, page),
    ensures
        ({
            let w = crate::model::reclaimed(v, want).0;
            &&& w.models.len() == v.models.len()
            &&& w.models[page.0].pages.len() == v.models[page.0].pages.len()
            &&& w.models[page.0].pages[page.1] == v.models[page.0].pages[page.1]
        }),
    decreases want,
{
    if want > 0 && v.order.len() > 0 {
        crate::model::dropping_keeps_the_order(v);
        lemma_absent_stays(crate::model::without_newest(v), (want - 1) as nat, page);
    }
}

/// Memory pressure takes the newest pages first: if the page read `k`th goes and the one
/// read `l`th stays, the `k`th was read later; and what stays is as it was.
pub proof fn the_newest_pages_go_first(v: StoreView, want: nat, k: int, l: int)
    requires
        v.wf(),
        0 <= k < v.order.len(),
        0 <= l < v.order.len(),
    ensures
        ({
            let w = crate::model::reclaimed(v, want).0;
            let gone = |n: int| !crate::model::is_resident(w.models, v.order[n]);
            &&& gone(k) && !gone(l) ==> k > l
            &&& gone(k) == (k >= v.order.len() - want)
            &&& !gone(l) ==> w.models[v.order[l].0].pages[v.order[l].1]
                == v.models[v.order[l].0].pages[v.order[l].1]
        }),
{
    reveal(crate::model::lists_residents);
    assert(crate::model::is_resident(v.models, v.order[k]));
    assert(crate::model::is_resident(v.models, v.order[l]));
    lemma_reclaimed(v, want, k);
    lemma_reclaimed(v, want, l);
}

/// A page that has just been read is the newest.
pub proof fn a_page_just_read_is_the_newest(v: StoreView, id: u64, index: usize, frame: u64)
    requires
        v.wf(),
        crate::model::claim_outcome(v, id, index).1 is Mine,
    ensures
        ({
            let i = crate::model::find_id(v.models, id, 0)->0;
            crate::model::fault_store(v, id, index, Some(frame)).order == v.order.push(
                (i, index as int),
            )
        }),
{
    lemma_first_with_id(v.models, id, 0);
    let i = crate::model::find_id(v.models, id, 0)->0;
    lemma_still_found(
        v,
        id,
        v.models[i].faulted().with_page(index as int, PageState::Loading),
    );
}

/// Reclaiming drops everything it was asked for, if there is that much, and exactly as
/// many resident pages as it says.
pub proof fn reclaiming_drops_as_much_as_there_is(v: StoreView, want: nat)
    requires
        v.wf(),
    ensures
        ({
            let n = v.models.len() as int;
            let (w, fs) = crate::model::reclaimed(v, want);
            &&& fs.len() == if residents(v.models, n) < want {
                residents(v.models, n)
            } else {
                want as int
            }
            &&& residents(w.models, n) + fs.len() == residents(v.models, n)
            &&& w.models.len() == n
            &&& w.wf()
        }),
    decreases want,
{
    the_resident_pages_are_counted(v);
    if want > 0 && v.order.len() > 0 {
        crate::model::dropping_keeps_the_order(v);
        let w = crate::model::without_newest(v);
        the_resident_pages_are_counted(w);
        reclaiming_drops_as_much_as_there_is(w, (want - 1) as nat);
    }
}

/// A model that was not in the store gets a number that no other has, and is found under
/// it.
pub proof fn a_new_model_has_a_fresh_number(
    v: StoreView,
    d: crate::blk::DiskView,
    start: u64,
    size: usize,
)
    requires
        v.wf(),
        v.next_id < u64::MAX,
        crate::model::open_outcome(v, d, start, size).2 is Ok,
        crate::model::find_hash(
            v.models,
            crate::model::content_hash(d.sectors, start, size as int),
            0,
        ) is None,
    ensures
        ({
            let (w, _, r) = crate::model::open_outcome(v, d, start, size);
            &&& forall|i: int| 0 <= i < v.models.len() ==> (#[trigger] v.models[i]).id != r->Ok_0
            &&& crate::model::find_id(w.models, r->Ok_0, 0) == Some(v.models.len() as int)
        }),
{
    let (w, _, r) = crate::model::open_outcome(v, d, start, size);
    assert forall|j: int| 0 <= j < v.models.len() implies (#[trigger] w.models[j]).id
        != r->Ok_0 by {
        assert(w.models[j] == v.models[j]);
    }
    lemma_id_is_found(w.models, r->Ok_0, 0, v.models.len() as int);
}

/// A fault that could not read its page leaves nothing behind: the page is absent again and
/// can be claimed, and the resident pages, the free frames and every process are as they
/// were. Only the fault has been counted.
pub proof fn a_failed_fault_leaves_nothing_behind(
    w0: World,
    w1: World,
    id: u64,
    offset: usize,
    pid: usize,
    va: u64,
    r: Fault,
)
    requires
        crate::model::faulted(w0, w1, id, offset, pid, va, r),
        crate::model::claim_outcome(w0.store, id, (offset / 4096) as usize).1 is Mine,
        cannot_be_read(w0, id, (offset / 4096) as usize),
    ensures
        ({
            let i = crate::model::find_id(w0.store.models, id, 0)->0;
            let index = (offset / 4096) as usize;
            &&& r == Fault::Failed
            &&& w1.store == w0.store.with_model(i, w0.store.models[i].faulted())
            &&& w1.store.models[i].pages[index as int] is Absent
            &&& w1.store.resident == w0.store.resident
            &&& w1.frames.available() == w0.frames.available()
            &&& w1.procs == w0.procs
            &&& crate::model::find_id(w1.store.models, id, 0) == Some(i)
            &&& crate::model::claim_outcome(w1.store, id, index).1 is Mine
        }),
{
    let index = (offset / 4096) as usize;
    let i = crate::model::find_id(w0.store.models, id, 0)->0;
    let m = w0.store.models[i];
    lemma_first_with_id(w0.store.models, id, 0);
    let claimed = m.faulted().with_page(index as int, PageState::Loading);
    lemma_still_found(w0.store, id, claimed);
    let w = crate::model::claim_outcome(w0.store, id, index).0;
    lemma_still_found(w, id, claimed.with_page(index as int, PageState::Absent));
    assert(claimed.with_page(index as int, PageState::Absent).pages =~= m.pages);
    assert(crate::model::fault_store(w0.store, id, index, None) =~= w0.store.with_model(
        i,
        m.faulted(),
    ));
}

/// No frame is free, or a sector of the page cannot be read.
pub open spec fn cannot_be_read(w: World, id: u64, index: usize) -> bool {
    let m = w.store.models[crate::model::find_id(w.store.models, id, 0)->0];
    ||| crate::mm::frames::alloc_outcome(w.frames).0 is None
    ||| w.disk.after_reads(
        (m.start_sector + index * 8) as u64,
        crate::model::page_reads(m.size as int, index as int),
    ).1 is Err
}

/// The process sees, read-only at `va`, page `index` of a model as the file has it: what
/// the walk leads to is a resident frame with those bytes.
pub open spec fn sees_the_page(
    w: World,
    sectors: Seq<Seq<u8>>,
    i: int,
    index: int,
    pid: usize,
    va: u64,
) -> bool {
    let m = w.store.models[i];
    &&& m.pages[index] is Resident
    &&& w.procs[pid as int].space.leaf(w.ram, crate::mm::paging::path_of(va)) == Some(
        crate::mm::paging::page_descriptor(m.pages[index]->Resident_0, Perm::UserReadOnly),
    )
    &&& forall|b: int|
        0 <= b < 4096 ==> #[trigger] w.ram.byte(m.pages[index]->Resident_0 + b)
            == crate::model::page_byte(sectors, m.start_sector, m.size as int, index, b)
}

/// A fault on an absent page is served as soon as there are frames for the page and for the
/// tables that lead to it, the sectors can be read and there is such a process: it then
/// sees the bytes of the file.
pub proof fn a_fault_that_can_be_served_is_served(
    w0: World,
    w1: World,
    id: u64,
    offset: usize,
    pid: usize,
    va: u64,
    r: Fault,
)
    requires
        w0.ok(),
        crate::model::faulted(w0, w1, id, offset, pid, va, r),
        crate::model::claim_outcome(w0.store, id, (offset / 4096) as usize).1 is Mine,
        !cannot_be_read(w0, id, (offset / 4096) as usize),
        w0.frames.available() >= 4,
        pid < w0.procs.len(),
        va % 4096 == 0,
        va < crate::mm::paging::USER_LIMIT,
    ensures
        ({
            let i = crate::model::find_id(w0.store.models, id, 0)->0;
            &&& r == Fault::Served
            &&& crate::model::find_id(w1.store.models, id, 0) == Some(i)
            &&& w1.store.models[i].start_sector == w0.store.models[i].start_sector
            &&& w1.store.models[i].size == w0.store.models[i].size
            &&& sees_the_page(w1, w0.disk.sectors, i, offset as int / 4096, pid, va)
        }),
{
    let index = (offset / 4096) as usize;
    let i = crate::model::find_id(w0.store.models, id, 0)->0;
    let m = w0.store.models[i];
    let (f1, r1, frame) = choose|f1: Frames, r1: Ram, frame: Option<u64>|
        {
            &&& #[trigger] crate::model::loaded(
                w0.disk,
                w0.frames,
                w0.ram,
                w1.disk,
                f1,
                r1,
                m.start_sector,
                m.size,
                index,
                frame,
            )
            &&& w1.store == crate::model::fault_store(w0.store, id, index, frame)
            &&& match frame {
                None => {
                    &&& r == Fault::Failed
                    &&& w1.frames == f1
                    &&& w1.ram == r1
                    &&& w1.procs == w0.procs
                },
                Some(frame) => r != Fault::Busy && crate::model::shown(
                    w0.procs,
                    f1,
                    r1,
                    w1.procs,
                    w1.frames,
                    w1.ram,
                    pid,
                    va,
                    frame,
                    r == Fault::Served,
                ),
            }
        };
    lemma_first_with_id(w0.store.models, id, 0);
    let f = crate::mm::frames::alloc_outcome(w0.frames).0->0;
    assert(frame == Some(f));
    let claimed = m.faulted().with_page(index as int, PageState::Loading);
    lemma_still_found(w0.store, id, claimed);
    let w = crate::model::claim_outcome(w0.store, id, index).0;
    lemma_still_found(w, id, claimed.with_page(index as int, PageState::Resident(f)));
    crate::proc::fresh_frames_disturb_no_process(w0.procs, w0.ram, w0.frames, r1, f1, f);
    crate::model::lemma_fresh_is_unowned(w0.procs, w0.ram, w0.frames, f);
    assert(f1.available() >= 3);
    if r != Fault::Served {
        let s0 = w0.procs[pid as int].space;
        let s1 = w1.procs[pid as int].space;
        assert(w1.frames.available() + (s1.owned@.len() - s0.owned@.len()) == f1.available());
        assert(false);
    }
    a_served_page_shows_the_file(
        w0.disk,
        w0.frames,
        w0.ram,
        w1.disk,
        f1,
        r1,
        m.start_sector,
        m.size,
        index,
        f,
        w0.procs,
        w1.procs,
        w1.frames,
        w1.ram,
        pid,
        va,
    );
}

/// A fault that failed costs nothing but time: whatever else has happened since, as long as
/// the store is as the failed fault left it, the next one on the page is served once frames
/// and reads succeed, with the right bytes.
pub proof fn a_failed_fault_can_be_made_good(
    w0: World,
    w1: World,
    w2: World,
    w3: World,
    id: u64,
    offset: usize,
    pid: usize,
    va: u64,
    first: Fault,
    second: Fault,
)
    requires
        crate::model::faulted(w0, w1, id, offset, pid, va, first),
        crate::model::claim_outcome(w0.store, id, (offset / 4096) as usize).1 is Mine,
        cannot_be_read(w0, id, (offset / 4096) as usize),
        w2.store == w1.store,
        w2.ok(),
        crate::model::faulted(w2, w3, id, offset, pid, va, second),
        !cannot_be_read(w2, id, (offset / 4096) as usize),
        w2.frames.available() >= 4,
        pid < w2.procs.len(),
        va % 4096 == 0,
        va < crate::mm::paging::USER_LIMIT,
    ensures
        ({
            let i = crate::model::find_id(w0.store.models, id, 0)->0;
            &&& first == Fault::Failed
            &&& second == Fault::Served
            &&& w3.store.models[i].start_sector == w0.store.models[i].start_sector
            &&& w3.store.models[i].size == w0.store.models[i].size
            &&& sees_the_page(w3, w2.disk.sectors, i, offset as int / 4096, pid, va)
        }),
{
    lemma_first_with_id(w0.store.models, id, 0);
    a_failed_fault_leaves_nothing_behind(w0, w1, id, offset, pid, va, first);
    a_fault_that_can_be_served_is_served(w2, w3, id, offset, pid, va, second);
}

/// Reclaim is invisible: it drops as many pages as it was asked for, or all there are, and
/// as many frames are free afterwards as went; a page being read is not touched; and where a
/// process had a dropped page's model attached, its page table shows nothing there.
pub proof fn reclaim_is_invisible(
    v0: StoreView,
    f0: Frames,
    r0: Ram,
    v1: StoreView,
    f1: Frames,
    r1: Ram,
    procs: Seq<Process>,
    want: usize,
    freed: usize,
    i: int,
    j: int,
)
    requires
        v0.wf(),
        crate::model::dropped_newest(v0, f0, r0, v1, f1, r1, procs, want, freed),
        0 <= i < v0.models.len(),
        0 <= j < v0.models[i].pages.len(),
        crate::model::mappings_fit(v0.models[i]),
    ensures
        v1.wf(),
        freed == if want < residents(v0.models, v0.models.len() as int) {
            want as int
        } else {
            residents(v0.models, v0.models.len() as int)
        },
        v1.resident == v0.resident - freed,
        residents(v1.models, v1.models.len() as int) == residents(
            v0.models,
            v0.models.len() as int,
        ) - freed,
        f1.available() == f0.available() + freed,
        v1.models.len() == v0.models.len(),
        v1.models[i].id == v0.models[i].id,
        v1.models[i].size == v0.models[i].size,
        v1.models[i].start_sector == v0.models[i].start_sector,
        v1.models[i].mappings == v0.models[i].mappings,
        v1.models[i].pages.len() == v0.models[i].pages.len(),
        // A page is as it was, or it was resident and is absent now.
        v1.models[i].pages[j] == v0.models[i].pages[j] || crate::model::dropped(
            v0.models[i].pages,
            v1.models[i].pages,
            j,
        ),
        crate::model::dropped(v0.models[i].pages, v1.models[i].pages, j) ==> forall|k: int|
            0 <= k < v0.models[i].mappings.len() && (#[trigger] v0.models[i].mappings[k]).pid
                < procs.len() && v0.models[i].mappings[k].base + j * 4096
                < crate::mm::paging::USER_LIMIT ==> procs[v0.models[i].mappings[k].pid as int].space.leaf(
                r1,
                crate::mm::paging::path_of((v0.models[i].mappings[k].base + j * 4096) as u64),
            ) is None,
{
    the_resident_pages_are_counted(v0);
    reclaiming_drops_as_much_as_there_is(v0, want as nat);
    the_resident_pages_are_counted(v1);
    lemma_only_pages_change(v0, want as nat, i, j);
    if crate::model::dropped(v0.models[i].pages, v1.models[i].pages, j) {
        let ms = v0.models[i].mappings;
        assert forall|k: int|
            0 <= k < ms.len() && (#[trigger] ms[k]).pid < procs.len() && ms[k].base + j * 4096
                < crate::mm::paging::USER_LIMIT implies procs[ms[k].pid as int].space.leaf(
            r1,
            crate::mm::paging::path_of((ms[k].base + j * 4096) as u64),
        ) is None by {
            let va = (ms[k].base + j * 4096) as u64;
            let q = crate::mm::paging::path_of(va);
            let p = ms[k].pid as int;
            crate::mm::paging::paths_are_in_range(va);
            assert(v0.models[i].pages[j] is Resident);
            assert(crate::model::hidden_in(
                v0.models[i].pages,
                v1.models[i].pages,
                v0.models[i].mappings,
                p,
                q,
            ));
            assert(crate::model::hidden(v0.models, v1.models, p, q));
        }
    }
}

/// Dropping pages changes nothing of a model but its pages and the count.
proof fn lemma_only_pages_change(v: StoreView, want: nat, i: int, j: int)
    requires
        v.wf(),
        0 <= i < v.models.len(),
        0 <= j < v.models[i].pages.len(),
    ensures
        ({
            let w = crate::model::reclaimed(v, want).0;
            let m = v.models[i];
            let n = w.models[i];
            &&& w.models.len() == v.models.len()
            &&& n == (ModelView { pages: n.pages, reclaimed: n.reclaimed, ..m })
            &&& n.pages.len() == m.pages.len()
            &&& n.pages[j] == m.pages[j] || crate::model::dropped(m.pages, n.pages, j)
        }),
    decreases want,
{
    if want > 0 && v.order.len() > 0 {
        crate::model::dropping_keeps_the_order(v);
        let w = crate::model::without_newest(v);
        lemma_only_pages_change(w, (want - 1) as nat, i, j);
    }
}

/// A page that was dropped comes back as it was: the next fault on it that can be served
/// shows the bytes of the same file.
pub proof fn a_dropped_page_comes_back_as_it_was(
    v0: StoreView,
    f0: Frames,
    r0: Ram,
    w1: World,
    w2: World,
    want: usize,
    freed: usize,
    id: u64,
    offset: usize,
    pid: usize,
    va: u64,
    r: Fault,
)
    requires
        v0.wf(),
        w1.ok(),
        crate::model::dropped_newest(
            v0,
            f0,
            r0,
            w1.store,
            w1.frames,
            w1.ram,
            w1.procs,
            want,
            freed,
        ),
        crate::model::find_id(v0.models, id, 0) matches Some(i) && (offset / 4096)
            < v0.models[i].pages.len() && crate::model::mappings_fit(v0.models[i])
            && crate::model::dropped(
            v0.models[i].pages,
            w1.store.models[i].pages,
            offset as int / 4096,
        ),
        crate::model::faulted(w1, w2, id, offset, pid, va, r),
        !cannot_be_read(w1, id, (offset / 4096) as usize),
        w1.frames.available() >= 4,
        pid < w1.procs.len(),
        va % 4096 == 0,
        va < crate::mm::paging::USER_LIMIT,
    ensures
        ({
            let i = crate::model::find_id(v0.models, id, 0)->0;
            &&& r == Fault::Served
            &&& w2.store.models[i].start_sector == v0.models[i].start_sector
            &&& w2.store.models[i].size == v0.models[i].size
            &&& sees_the_page(w2, w1.disk.sectors, i, offset as int / 4096, pid, va)
        }),
{
    let i = crate::model::find_id(v0.models, id, 0)->0;
    let j = offset as int / 4096;
    lemma_first_with_id(v0.models, id, 0);
    reclaim_is_invisible(
        v0,
        f0,
        r0,
        w1.store,
        w1.frames,
        w1.ram,
        w1.procs,
        want,
        freed,
        i,
        j,
    );
    assert forall|k: int| 0 <= k < i implies (#[trigger] w1.store.models[k]).id != id by {
        assert(w1.store.models[i].id == id);
    }
    lemma_id_is_found(w1.store.models, id, 0, i);
    a_fault_that_can_be_served_is_served(w1, w2, id, offset, pid, va, r);
}

/// The same bytes are one model, whatever the files are called and wherever they are: the
/// second open gives the number that the first gave, adds no model, and changes nothing of
/// the one there is but that it has one more user.
pub proof fn the_same_bytes_are_one_model(
    v: StoreView,
    d: crate::blk::DiskView,
    a: u64,
    b: u64,
    size: usize,
)
    requires
        v.wf(),
        v.next_id < u64::MAX,
        a + crate::fs::sectors_for(size as int) <= u64::MAX,
        crate::model::open_outcome(v, d, a, size).2 is Ok,
        crate::model::open_outcome(v, d, a, size).1.after_reads(
            b,
            crate::fs::sectors_for(size as int) as nat,
        ).1 is Ok,
        crate::model::content(d.sectors, a, size as int) == crate::model::content(
            d.sectors,
            b,
            size as int,
        ),
    ensures
        ({
            let (v1, d1, r1) = crate::model::open_outcome(v, d, a, size);
            let (v2, d2, r2) = crate::model::open_outcome(v1, d1, b, size);
            let i = crate::model::find_id(v1.models, r1->Ok_0, 0)->0;
            let m = v1.models[i];
            &&& r2 == r1
            &&& crate::model::find_id(v1.models, r1->Ok_0, 0) is Some
            &&& 0 <= i < v1.models.len()
            &&& v2 == v1.with_model(i, ModelView { refs: (m.refs + 1) as usize, ..m })
        }),
{
    let (v1, d1, r1) = crate::model::open_outcome(v, d, a, size);
    let hash = crate::model::content_hash(d.sectors, a, size as int);
    assert(d1.sectors == d.sectors);
    crate::model::opening_keeps_the_store_in_order(v, d, a, size);
    lemma_first_with_hash(v.models, hash, 0);
    let k: int = match crate::model::find_hash(v.models, hash, 0) {
        Some(i) => i,
        None => v.models.len() as int,
    };
    assert forall|j: int| 0 <= j < k implies (#[trigger] v1.models[j]).hash != hash by {
        assert(v1.models[j] == v.models[j]);
    }
    lemma_hash_is_found(v1.models, hash, 0, k);
    assert forall|j: int| 0 <= j < k implies (#[trigger] v1.models[j]).id != r1->Ok_0 by {
        assert(v1.models[k].id == r1->Ok_0);
    }
    lemma_id_is_found(v1.models, r1->Ok_0, 0, k);
}

/// Content that is not in the store is a new model: it has a number of its own, one user,
/// a place for each of its pages and none of them resident.
pub proof fn new_content_is_a_new_model(
    v: StoreView,
    d: crate::blk::DiskView,
    start: u64,
    size: usize,
)
    requires
        v.wf(),
        v.next_id < u64::MAX,
        d.after_reads(start, crate::fs::sectors_for(size as int) as nat).1 is Ok,
        forall|i: int|
            0 <= i < v.models.len() ==> (#[trigger] v.models[i]).hash
                != crate::model::content_hash(d.sectors, start, size as int),
    ensures
        ({
            let (w, _, r) = crate::model::open_outcome(v, d, start, size);
            let m = w.models.last();
            &&& r == Ok::<u64, &'static str>(m.id)
            &&& w.models == v.models.push(m)
            &&& forall|i: int| 0 <= i < v.models.len() ==> (#[trigger] v.models[i]).id != m.id
            &&& m.refs == 1
            &&& m.size == size
            &&& m.hash == crate::model::content_hash(d.sectors, start, size as int)
            &&& m.pages.len() == crate::model::pages_for(size as int)
            &&& crate::model::resident_among(m.pages, m.pages.len() as int) == 0
        }),
{
    let hash = crate::model::content_hash(d.sectors, start, size as int);
    lemma_first_with_hash(v.models, hash, 0);
    let m = crate::model::open_outcome(v, d, start, size).0.models.last();
    lemma_no_page_resident(m.pages, m.pages.len() as int);
}

// ---- what a model is known by ---------------------------------------------------------------

/// Byte `i` of a file that starts at a sector.
pub open spec fn file_byte(sectors: Seq<Seq<u8>>, start: u64, i: int) -> u8 {
    sectors[start + i / 512][i % 512]
}

proof fn lemma_content(sectors: Seq<Seq<u8>>, start: u64, size: int)
    requires
        size >= 0,
    ensures
        crate::model::content(sectors, start, size) == Seq::new(
            size as nat,
            |i: int| file_byte(sectors, start, i),
        ),
{
    assert(crate::model::content(sectors, start, size) =~= Seq::new(
        size as nat,
        |i: int| file_byte(sectors, start, i),
    ));
}

/// The hash of a file takes in one byte after the other, to the last: one more byte is one
/// more step of FNV-1a, from what all those before have left. A file of no bytes has the
/// seed.
pub proof fn every_byte_goes_into_the_hash(sectors: Seq<Seq<u8>>, start: u64, n: int)
    requires
        n >= 0,
    ensures
        crate::model::content_hash(sectors, start, 0) == 0xcbf2_9ce4_8422_2325u64,
        crate::model::content_hash(sectors, start, n + 1) == ((crate::model::content_hash(
            sectors,
            start,
            n,
        ) ^ (file_byte(sectors, start, n) as u64)) * 0x0000_0100_0000_01B3) % 0x1_0000_0000_0000_0000,
{
    lemma_content(sectors, start, 0);
    lemma_content(sectors, start, n);
    lemma_content(sectors, start, n + 1);
    let c = crate::model::content(sectors, start, n + 1);
    assert(c.drop_last() =~= crate::model::content(sectors, start, n));
    assert(c.last() == file_byte(sectors, start, n));
}

/// Files with the same bytes have the same hash, wherever they are; files of the same size
/// that differ in exactly one byte never do, wherever in the file it is.
pub proof fn one_byte_makes_another_model(
    sectors: Seq<Seq<u8>>,
    other: Seq<Seq<u8>>,
    a: u64,
    b: u64,
    size: int,
    at: int,
)
    requires
        size >= 0,
        forall|i: int|
            0 <= i < size && i != at ==> #[trigger] file_byte(sectors, a, i) == file_byte(
                other,
                b,
                i,
            ),
    ensures
        0 <= at < size && file_byte(sectors, a, at) != file_byte(other, b, at)
            ==> crate::model::content_hash(sectors, a, size) != crate::model::content_hash(
            other,
            b,
            size,
        ),
        !(0 <= at < size) || file_byte(sectors, a, at) == file_byte(other, b, at)
            ==> crate::model::content_hash(sectors, a, size) == crate::model::content_hash(
            other,
            b,
            size,
        ),
{
    lemma_content(sectors, a, size);
    lemma_content(other, b, size);
    let x = crate::model::content(sectors, a, size);
    let y = crate::model::content(other, b, size);
    assert forall|i: int| 0 <= i < size && i != at implies x[i] == y[i] by {
        assert(file_byte(sectors, a, i) == file_byte(other, b, i));
    }
    if 0 <= at < size && file_byte(sectors, a, at) != file_byte(other, b, at) {
        assert(y =~= x.update(at, y[at]));
        crate::audit_laws::one_byte_changes_the_hash(crate::model::HASH_SEED, x, at, y[at]);
    } else {
        assert(x =~= y);
    }
}

/// A model and a version of it that differs in one byte are two models: the second is opened
/// under a number of its own, and shares no page with the first.
pub proof fn a_changed_file_is_opened_as_another_model(
    v: StoreView,
    d: crate::blk::DiskView,
    a: u64,
    b: u64,
    size: usize,
    at: int,
)
    requires
        v.wf(),
        v.next_id < u64::MAX - 1,
        a + crate::fs::sectors_for(size as int) <= u64::MAX,
        b + crate::fs::sectors_for(size as int) <= u64::MAX,
        0 <= at < size,
        file_byte(d.sectors, a, at) != file_byte(d.sectors, b, at),
        forall|i: int|
            0 <= i < size && i != at ==> #[trigger] file_byte(d.sectors, a, i) == file_byte(
                d.sectors,
                b,
                i,
            ),
        crate::model::open_outcome(v, d, a, size).2 is Ok,
        ({
            let (v1, d1, _) = crate::model::open_outcome(v, d, a, size);
            crate::model::open_outcome(v1, d1, b, size).2 is Ok
        }),
    ensures
        ({
            let (v1, d1, r1) = crate::model::open_outcome(v, d, a, size);
            let (v2, d2, r2) = crate::model::open_outcome(v1, d1, b, size);
            &&& r1->Ok_0 != r2->Ok_0
            &&& crate::model::find_id(v2.models, r1->Ok_0, 0) is Some
            &&& crate::model::find_id(v2.models, r2->Ok_0, 0) is Some
            &&& crate::model::find_id(v2.models, r1->Ok_0, 0) != crate::model::find_id(
                v2.models,
                r2->Ok_0,
                0,
            )
        }),
{
    let (v1, d1, r1) = crate::model::open_outcome(v, d, a, size);
    let (v2, d2, r2) = crate::model::open_outcome(v1, d1, b, size);
    assert(d1.sectors == d.sectors);
    one_byte_makes_another_model(d.sectors, d.sectors, a, b, size as int, at);
    crate::model::opening_keeps_the_store_in_order(v, d, a, size);
    crate::model::opening_keeps_the_store_in_order(v1, d1, b, size);
    let ha = crate::model::content_hash(d.sectors, a, size as int);
    let hb = crate::model::content_hash(d.sectors, b, size as int);
    lemma_first_with_hash(v.models, ha, 0);
    lemma_first_with_hash(v1.models, hb, 0);
    let i: int = match crate::model::find_hash(v.models, ha, 0) {
        Some(i) => i,
        None => v.models.len() as int,
    };
    let j: int = match crate::model::find_hash(v1.models, hb, 0) {
        Some(j) => j,
        None => v1.models.len() as int,
    };
    assert(v1.models[i].hash == ha && v1.models[i].id == r1->Ok_0);
    assert(v2.models[i].hash == ha && v2.models[i].id == r1->Ok_0);
    assert(v2.models[j].hash == hb && v2.models[j].id == r2->Ok_0);
    assert(i != j);
    lemma_first_with_id(v2.models, r1->Ok_0, 0);
    lemma_first_with_id(v2.models, r2->Ok_0, 0);
}

/// What a page shows is the file, byte for byte, and zeros where the file has ended; and what
/// has to be read for it are exactly the sectors of the file that it covers.
pub proof fn a_page_is_a_part_of_the_file(
    sectors: Seq<Seq<u8>>,
    start: u64,
    size: int,
    index: int,
    i: int,
)
    requires
        0 <= index,
        0 <= i < 4096,
        0 <= size,
    ensures
        crate::model::page_byte(sectors, start, size, index, i) == if 4096 * index + i < size {
            file_byte(sectors, start, 4096 * index + i)
        } else {
            0
        },
        4096 * index + i < size <==> i < 512 * crate::model::page_reads(size, index) && 4096
            * index + i < size,
        crate::model::page_reads(size, index) <= 8,
        // No sector is read that holds nothing of the file.
        crate::model::page_reads(size, index) > 0 ==> 4096 * index + 512 * (
        crate::model::page_reads(size, index) - 1) < size,
        // A file has a page for every byte, and none without one.
        crate::model::pages_for(size) * 4096 >= size,
        crate::model::pages_for(size) > 0 ==> (crate::model::pages_for(size) - 1) * 4096 < size,
{
}

/// An address belongs to the model that is attached there: the process has it mapped at a
/// base no higher, the address is within its size, and the offset is how far from the base.
pub proof fn an_address_belongs_to_what_is_attached_there(
    models: Seq<ModelView>,
    pid: usize,
    va: u64,
    i: int,
)
    requires
        0 <= i <= models.len(),
    ensures
        match crate::model::located(models, pid, va, i) {
            Some((id, offset)) => exists|m: int, k: int|
                #![trigger models[m].mappings[k]]
                i <= m < models.len() && 0 <= k < models[m].mappings.len() && models[m].id == id
                    && models[m].mappings[k].pid == pid && models[m].mappings[k].base + offset == va
                    && 0 <= offset < models[m].size,
            None => forall|m: int, k: int|
                #![trigger models[m].mappings[k]]
                i <= m < models.len() && 0 <= k < models[m].mappings.len()
                    && models[m].mappings[k].pid == pid ==> !(models[m].mappings[k].base <= va
                    < models[m].mappings[k].base + models[m].size),
        },
    decreases models.len() - i,
{
    if i < models.len() {
        lemma_mapping(models[i], pid, va, 0);
        match crate::model::mapping_of(models[i], pid, va, 0) {
            Some(k) => {
                assert(models[i].mappings[k].pid == pid);
            },
            None => {
                an_address_belongs_to_what_is_attached_there(models, pid, va, i + 1);
            },
        }
    }
}

proof fn lemma_mapping(m: ModelView, pid: usize, va: u64, k: int)
    requires
        0 <= k <= m.mappings.len(),
    ensures
        match crate::model::mapping_of(m, pid, va, k) {
            Some(j) => k <= j < m.mappings.len() && m.mappings[j].pid == pid && m.mappings[j].base
                <= va < m.mappings[j].base + m.size,
            None => forall|j: int|
                k <= j < m.mappings.len() && (#[trigger] m.mappings[j]).pid == pid
                    ==> !(m.mappings[j].base <= va < m.mappings[j].base + m.size),
        },
    decreases m.mappings.len() - k,
{
    if k < m.mappings.len() {
        lemma_mapping(m, pid, va, k + 1);
    }
}

/// A model is opened under the name it was published under, and under no other.
pub proof fn a_published_name_is_found(
    list: Seq<crate::model::Published>,
    name: Seq<char>,
    i: int,
)
    requires
        0 <= i <= list.len(),
    ensures
        match crate::model::find_name(list, name, i) {
            Some(k) => i <= k < list.len() && list[k].name@ == name,
            None => forall|k: int| i <= k < list.len() ==> (#[trigger] list[k]).name@ != name,
        },
    decreases list.len() - i,
{
    if i < list.len() && list[i].name@ != name {
        a_published_name_is_found(list, name, i + 1);
    }
}

/// What a fault finds is what is behind the page: an absent page is claimed and marked, so
/// that it is read once; a resident one is handed out as it is; one being read is left to who
/// reads it. Each fault that finds a page is counted, and no other page or model is touched.
pub proof fn a_claim_is_of_one_page(v: StoreView, id: u64, index: usize)
    ensures
        ({
            let (w, c) = crate::model::claim_outcome(v, id, index);
            match crate::model::find_id(v.models, id, 0) {
                Some(i) if 0 <= i < v.models.len() && index < v.models[i].pages.len() => {
                    let m = v.models[i];
                    let n = w.models[i];
                    &&& m.id == id
                    &&& match m.pages[index as int] {
                        PageState::Absent => c == Claim::Mine && n.pages == m.pages.update(
                            index as int,
                            PageState::Loading,
                        ) && n.faults == m.faults.wrapping_add(1),
                        PageState::Loading => c == Claim::Busy && n == m,
                        PageState::Resident(f) => c == Claim::Resident(f) && n.pages == m.pages
                            && n.faults == m.faults.wrapping_add(1),
                    }
                    &&& n == (ModelView { pages: n.pages, faults: n.faults, ..m })
                    &&& w == (StoreView { models: v.models.update(i, n), ..v })
                },
                _ => c == Claim::Missing && w == v,
            }
        }),
{
    lemma_first_with_id(v.models, id, 0);
    let (w, c) = crate::model::claim_outcome(v, id, index);
    match crate::model::find_id(v.models, id, 0) {
        Some(i) => {
            if index < v.models[i].pages.len() && v.models[i].pages[index as int] is Loading {
                assert(v.models.update(i, v.models[i]) =~= v.models);
            }
        },
        None => {},
    }
}

/// A model is found by its own number, and only by that.
pub proof fn a_model_is_found_by_its_number(models: Seq<ModelView>, id: u64)
    ensures
        match crate::model::find_id(models, id, 0) {
            Some(k) => 0 <= k < models.len() && models[k].id == id,
            None => forall|k: int| 0 <= k < models.len() ==> (#[trigger] models[k]).id != id,
        },
{
    lemma_first_with_id(models, id, 0);
}

/// The pages counted as resident are those that are: one more for each that is, none for any
/// that is not.
pub proof fn residents_are_counted_page_by_page(pages: Seq<PageState>, n: int)
    requires
        0 <= n < pages.len(),
    ensures
        crate::model::resident_among(pages, 0) == 0,
        crate::model::resident_among(pages, n + 1) - crate::model::resident_among(pages, n) == if (
        pages[n] is Resident) {
            1int
        } else {
            0
        },
{
}

/// Attaching a model to a process adds one mapping behind the others, says how large the model
/// is, and changes nothing else of it and no other model.
pub proof fn attaching_adds_one_mapping(
    v: StoreView,
    id: u64,
    pid: usize,
    base: u64,
    k: int,
)
    requires
        0 <= k < v.models.len(),
    ensures
        ({
            let (w, r) = crate::model::attached_at(v, id, pid, base);
            let m = v.models[k];
            let n = w.models[k];
            &&& w.models.len() == v.models.len()
            &&& r is Err ==> w == v && m.id != id
            &&& m.id != id ==> n == m
            &&& n.id == m.id && n.size == m.size && n.pages == m.pages && n.refs == m.refs
            &&& n.mappings.len() == m.mappings.len() || (n.mappings.len() == m.mappings.len() + 1
                && n.mappings.drop_last() == m.mappings && n.mappings.last().pid == pid
                && n.mappings.last().base == base && r == Ok::<usize, &'static str>(m.size))
            &&& n.mappings.len() == m.mappings.len() ==> n == m
            &&& r is Ok ==> exists|i: int|
                0 <= i < v.models.len() && (#[trigger] w.models[i]).mappings.len()
                    == v.models[i].mappings.len() + 1
        }),
{
    a_model_is_found_by_its_number(v.models, id);
    let (w, r) = crate::model::attached_at(v, id, pid, base);
    match crate::model::find_id(v.models, id, 0) {
        Some(i) => {
            assert(w.models[i].mappings.drop_last() =~= v.models[i].mappings);
            assert(w.models[i].mappings.len() == v.models[i].mappings.len() + 1);
        },
        None => {},
    }
}

} // verus!
