//! Block storage, as its clients see it.
//!
//! The device is reached through a driver process, so every operation can fail
//! for a reason that has nothing to do with the data. [`Disk`] is that view:
//! the sectors, what becomes of each request to come, and the writes that have
//! reached the device, in order. Everything above it — the filesystem, the
//! action log, the boot slots — is written against it and so is verified for a
//! device that may fail at any request, for once or for good.
use vstd::prelude::*;
use crate::bytes::{get_u32, get_u64, push_bytes, push_u32, push_u64};
use crate::ipc::{send, try_recv, Channels};
use crate::sched::Scheduler;

verus! {

pub const SECTOR_SIZE: usize = 512;

/// What becomes of one request.
#[derive(Clone, Copy, Debug, PartialEq, Eq, Structural)]
pub enum Fate {
    /// The driver answers.
    Answered,
    /// The driver does not answer, and the request never reached the device.
    Lost,
    /// The driver does not answer, but the request reached the device.
    Late,
    /// The driver answers that the device failed.
    Failed,
}

/// What a device holds, and how its driver will behave.
#[verifier::ext_equal]
pub struct DiskView {
    pub sectors: Seq<Seq<u8>>,
    /// What becomes of the requests to come, in order. Those after the last are
    /// answered.
    pub fates: Seq<Fate>,
    /// Every write that has reached the device, in order.
    pub journal: Seq<(u64, Seq<u8>)>,
}

/// The error that a request with this fate comes back with, if it does.
pub open spec fn error_of(f: Fate) -> Option<&'static str> {
    match f {
        Fate::Answered => None,
        Fate::Lost => Some("block driver did not answer"),
        Fate::Late => Some("block driver did not answer"),
        Fate::Failed => Some("driver reported an error"),
    }
}

/// How many of the next `n` requests are answered before the first that is not.
pub open spec fn answered_run(fates: Seq<Fate>, n: nat) -> nat
    decreases n,
{
    if n == 0 {
        0
    } else if fates.len() == 0 {
        n
    } else if fates[0] != Fate::Answered {
        0
    } else {
        1 + answered_run(fates.skip(1), (n - 1) as nat)
    }
}

impl DiskView {
    /// Whether every sector is a whole sector.
    pub open spec fn wf(self) -> bool {
        forall|i: int| 0 <= i < self.sectors.len() ==> (#[trigger] self.sectors[i]).len() == 512
    }

    /// Every request to come is answered.
    pub open spec fn steady(self) -> bool {
        self.fates.len() == 0
    }

    /// The next `n` requests are answered.
    pub open spec fn answers(self, n: nat) -> bool {
        forall|i: int|
            0 <= i < n && i < self.fates.len() ==> #[trigger] self.fates[i] == Fate::Answered
    }

    /// What becomes of the next request.
    pub open spec fn fate(self) -> Fate {
        if self.fates.len() == 0 {
            Fate::Answered
        } else {
            self.fates[0]
        }
    }

    /// `n` requests have been made.
    pub open spec fn spent(self, n: nat) -> DiskView {
        if n == 0 || self.fates.len() == 0 {
            self
        } else {
            DiskView {
                fates: if n <= self.fates.len() {
                    self.fates.skip(n as int)
                } else {
                    Seq::empty()
                },
                ..self
            }
        }
    }

    /// What reading one sector returns.
    pub open spec fn read_result(self, sector: u64) -> Result<Seq<u8>, &'static str> {
        match error_of(self.fate()) {
            Some(e) => Err(e),
            None => if sector >= self.sectors.len() {
                Err("driver reported an error")
            } else {
                Ok(self.sectors[sector as int])
            },
        }
    }

    /// The device after reading one sector.
    pub open spec fn after_read(self) -> DiskView {
        self.spent(1)
    }

    /// How many of the `n` sectors from `start` on can be read in order before
    /// the first failure.
    pub open spec fn readable(self, start: u64, n: nat) -> nat {
        let present: nat = if start >= self.sectors.len() {
            0
        } else {
            (self.sectors.len() - start) as nat
        };
        answered_run(
            self.fates,
            if n <= present {
                n
            } else {
                present
            },
        )
    }

    /// The device, and the verdict, after reading the `n` sectors from `start`
    /// on, stopping at the first failure.
    pub open spec fn after_reads(self, start: u64, n: nat) -> (DiskView, Result<(), &'static str>) {
        let k = self.readable(start, n);
        if k == n {
            (self.spent(n), Ok(()))
        } else {
            (
                self.spent(k + 1),
                match self.spent(k).read_result((start + k) as u64) {
                    Ok(_) => Ok(()),
                    Err(e) => Err(e),
                },
            )
        }
    }

    /// Sector `sector` replaced, where there is one.
    pub open spec fn with_sector(self, sector: u64, data: Seq<u8>) -> DiskView {
        if sector < self.sectors.len() {
            DiskView {
                sectors: self.sectors.update(sector as int, data),
                journal: self.journal.push((sector, data)),
                ..self
            }
        } else {
            self
        }
    }

    /// What writing one sector returns.
    pub open spec fn write_result(self, sector: u64) -> Result<(), &'static str> {
        match error_of(self.fate()) {
            Some(e) => Err(e),
            None => if sector >= self.sectors.len() {
                Err("driver reported an error")
            } else {
                Ok(())
            },
        }
    }

    /// The device after writing one sector.
    pub open spec fn after_write(self, sector: u64, data: Seq<u8>) -> DiskView {
        match self.fate() {
            Fate::Answered | Fate::Late => self.with_sector(sector, data).spent(1),
            Fate::Lost | Fate::Failed => self.spent(1),
        }
    }

    /// The device, and the verdict, after a run of writes that stops at the
    /// first one to fail.
    pub open spec fn after_writes(self, writes: Seq<(u64, Seq<u8>)>) -> (
        DiskView,
        Result<(), &'static str>,
    )
        decreases writes.len(),
    {
        if writes.len() == 0 {
            (self, Ok(()))
        } else {
            let (d, r) = self.after_writes(writes.drop_last());
            if r is Err {
                (d, r)
            } else {
                (
                    d.after_write(writes.last().0, writes.last().1),
                    d.write_result(writes.last().0),
                )
            }
        }
    }
}

/// A device that holds these sectors, with a driver that answers.
pub open spec fn resting(sectors: Seq<Seq<u8>>) -> DiskView {
    DiskView { sectors, fates: Seq::empty(), journal: Seq::empty() }
}

/// The run of answered requests ends at the first that is not answered.
pub proof fn the_run_ends_at_the_first_failure(fates: Seq<Fate>, n: nat)
    ensures
        answered_run(fates, n) <= n,
        forall|i: int|
            0 <= i < answered_run(fates, n) && i < fates.len() ==> #[trigger] fates[i]
                == Fate::Answered,
        answered_run(fates, n) < n ==> answered_run(fates, n) < fates.len()
            && fates[answered_run(fates, n) as int] != Fate::Answered,
    decreases n,
{
    if n > 0 && fates.len() > 0 && fates[0] == Fate::Answered {
        let rest = fates.skip(1);
        the_run_ends_at_the_first_failure(rest, (n - 1) as nat);
        assert forall|i: int|
            0 <= i < answered_run(fates, n) && i < fates.len() implies #[trigger] fates[i]
            == Fate::Answered by {
            if i > 0 {
                assert(rest[i - 1] == fates[i]);
            }
        }
    }
}

/// Requests made one after the other.
pub proof fn requests_add_up(d: DiskView, n: nat, m: nat)
    ensures
        d.spent(n).spent(m) == d.spent(n + m),
        n < d.fates.len() ==> d.spent(n).fate() == d.fates[n as int],
        n >= d.fates.len() ==> d.spent(n).fate() == Fate::Answered,
{
    assert(d.spent(n).spent(m).fates =~= d.spent(n + m).fates);
}

/// Reading sector after sector: after `k` of `n` sectors, the next read fails exactly if
/// no more than `k` can be read.
pub proof fn reading_on(d: DiskView, start: u64, n: nat, k: nat)
    requires
        k < n,
        k <= d.readable(start, n),
        start + k <= u64::MAX,
    ensures
        d.readable(start, n) <= n,
        d.spent(k).after_read() == d.spent(k + 1),
        d.spent(k).sectors == d.sectors,
        match d.spent(k).read_result((start + k) as u64) {
            Ok(b) => k < d.readable(start, n) && start + k < d.sectors.len() && b
                == d.sectors[start + k],
            Err(e) => k == d.readable(start, n) && d.after_reads(start, n) == (
                d.spent(k + 1),
                Err::<(), &'static str>(e),
            ),
        },
{
    let present: nat = if start >= d.sectors.len() {
        0
    } else {
        (d.sectors.len() - start) as nat
    };
    let cut: nat = if n <= present {
        n
    } else {
        present
    };
    the_run_ends_at_the_first_failure(d.fates, cut);
    requests_add_up(d, k, 1);
}

/// No more can be read than is asked for, nor than there is.
pub proof fn readable_bounds(d: DiskView, start: u64, n: nat)
    ensures
        d.readable(start, n) <= n,
        d.readable(start, n) > 0 ==> start + d.readable(start, n) <= d.sectors.len(),
{
    let present: nat = if start >= d.sectors.len() {
        0
    } else {
        (d.sectors.len() - start) as nat
    };
    the_run_ends_at_the_first_failure(
        d.fates,
        if n <= present {
            n
        } else {
            present
        },
    );
}

/// While the driver answers, every sector that there is can be read.
pub proof fn answered_reads(d: DiskView, start: u64, n: nat)
    requires
        d.answers(n),
        start + n <= d.sectors.len(),
    ensures
        d.readable(start, n) == n,
        d.after_reads(start, n) == (d.spent(n), Ok::<(), &'static str>(())),
{
    the_run_ends_at_the_first_failure(d.fates, n);
}

/// After `n` answered requests, `m` more are answered if `n + m` were to be.
pub proof fn answers_after(d: DiskView, n: nat, m: nat)
    requires
        d.answers(n + m),
    ensures
        d.answers(n),
        d.spent(n).answers(m),
        d.answers(m),
{
    let r = d.spent(n);
    assert forall|i: int| 0 <= i < m && i < r.fates.len() implies #[trigger] r.fates[i]
        == Fate::Answered by {
        assert(r.fates[i] == d.fates[n + i]);
    }
}

/// A run of writes that has failed stays where it failed.
pub proof fn failed_run_stops(d: DiskView, writes: Seq<(u64, Seq<u8>)>, n: int)
    requires
        0 <= n <= writes.len(),
        d.after_writes(writes.take(n)).1 is Err,
    ensures
        d.after_writes(writes) == d.after_writes(writes.take(n)),
    decreases writes.len(),
{
    if n == writes.len() {
        assert(writes.take(n) =~= writes);
    } else {
        assert(writes.drop_last().take(n) =~= writes.take(n));
        failed_run_stops(d, writes.drop_last(), n);
    }
}

/// One more write after a run that succeeded.
pub proof fn run_extends(d: DiskView, writes: Seq<(u64, Seq<u8>)>, sector: u64, data: Seq<u8>)
    requires
        d.after_writes(writes).1 is Ok,
    ensures
        ({
            let d1 = d.after_writes(writes).0;
            d.after_writes(writes.push((sector, data))) == (
                d1.after_write(sector, data),
                d1.write_result(sector),
            )
        }),
{
    assert(writes.push((sector, data)).drop_last() =~= writes);
}

/// A run of writes touches only the sectors it names, and every sector it
/// changes holds the data of one of the writes to it.
pub proof fn writes_touch_only_their_sectors(d: DiskView, writes: Seq<(u64, Seq<u8>)>)
    ensures
        d.after_writes(writes).0.sectors.len() == d.sectors.len(),
        forall|i: int|
            #![trigger d.after_writes(writes).0.sectors[i]]
            0 <= i < d.sectors.len() ==> d.after_writes(writes).0.sectors[i] == d.sectors[i] || exists|
                k: int,
            |
                0 <= k < writes.len() && (#[trigger] writes[k]).0 == i && writes[k].1
                    == d.after_writes(writes).0.sectors[i],
    decreases writes.len(),
{
    if writes.len() > 0 {
        let head = writes.drop_last();
        writes_touch_only_their_sectors(d, head);
        let after = d.after_writes(writes).0;
        let before = d.after_writes(head).0;
        assert forall|i: int|
            #![trigger d.after_writes(writes).0.sectors[i]]
            0 <= i < d.sectors.len() implies after.sectors[i] == d.sectors[i] || exists|k: int|
            0 <= k < writes.len() && (#[trigger] writes[k]).0 == i && writes[k].1
                == after.sectors[i] by {
            let last = writes.len() - 1;
            if after.sectors[i] == before.sectors[i] {
                if before.sectors[i] != d.sectors[i] {
                    let k = choose|k: int|
                        0 <= k < head.len() && (#[trigger] head[k]).0 == i && head[k].1
                            == before.sectors[i];
                    assert(writes[k] == head[k]);
                }
            } else {
                assert(writes[last].0 == i && writes[last].1 == after.sectors[i]);
            }
        }
    }
}

/// A run of writes that succeeded leaves in a sector what it wrote there last.
pub proof fn the_last_write_stays(d: DiskView, writes: Seq<(u64, Seq<u8>)>, k: int)
    requires
        d.after_writes(writes).1 is Ok,
        0 <= k < writes.len(),
        forall|j: int| k < j < writes.len() ==> (#[trigger] writes[j]).0 != writes[k].0,
    ensures
        writes[k].0 < d.sectors.len(),
        d.after_writes(writes).0.sectors.len() == d.sectors.len(),
        d.after_writes(writes).0.sectors[writes[k].0 as int] == writes[k].1,
    decreases writes.len(),
{
    let head = writes.drop_last();
    writes_touch_only_their_sectors(d, head);
    if k < writes.len() - 1 {
        assert forall|j: int| k < j < head.len() implies (#[trigger] head[j]).0 != head[k].0 by {
            assert(head[j] == writes[j]);
        }
        the_last_write_stays(d, head, k);
        assert(writes[writes.len() - 1].0 != writes[k].0);
    }
}

/// While the driver answers and the sectors exist, every write in a run lands.
pub proof fn run_succeeds(d: DiskView, writes: Seq<(u64, Seq<u8>)>)
    requires
        d.answers(writes.len()),
        forall|k: int|
            0 <= k < writes.len() ==> (#[trigger] writes[k]).0 < d.sectors.len(),
    ensures
        d.after_writes(writes).1 is Ok,
        d.after_writes(writes).0.fates == d.spent(writes.len()).fates,
    decreases writes.len(),
{
    if writes.len() > 0 {
        let head = writes.drop_last();
        assert forall|k: int| 0 <= k < head.len() implies (#[trigger] head[k]).0
            < d.sectors.len() by {
            assert(head[k] == writes[k]);
        }
        run_succeeds(d, head);
        writes_touch_only_their_sectors(d, head);
        assert(writes.last() == writes[writes.len() - 1]);
        requests_add_up(d, head.len(), 1);
        let d1 = d.after_writes(head).0;
        assert(d1.fate() == d.spent(head.len()).fate());
        assert(d1.fate() == Fate::Answered);
        let w = writes.last();
        assert(d1.with_sector(w.0, w.1).spent(1).fates == d.spent(head.len()).spent(1).fates);
    }
}

/// Sectors after a run of writes has been carried out on them.
pub open spec fn replayed(sectors: Seq<Seq<u8>>, writes: Seq<(u64, Seq<u8>)>) -> Seq<Seq<u8>>
    decreases writes.len(),
{
    if writes.len() == 0 {
        sectors
    } else {
        let w = writes.last();
        let s = replayed(sectors, writes.drop_last());
        if w.0 < s.len() {
            s.update(w.0 as int, w.1)
        } else {
            s
        }
    }
}

/// The journal says what became of the sectors: carrying it out, in order, on what
/// the device held at first gives what it holds now, before a write and after it.
pub proof fn the_journal_is_what_happened(
    first: Seq<Seq<u8>>,
    d: DiskView,
    sector: u64,
    data: Seq<u8>,
)
    requires
        d.sectors == replayed(first, d.journal),
    ensures
        ({
            let d2 = d.after_write(sector, data);
            &&& d2.sectors == replayed(first, d2.journal)
            &&& d.journal.is_prefix_of(d2.journal)
        }),
{
    let d2 = d.after_write(sector, data);
    assert(d.journal.push((sector, data)).drop_last() =~= d.journal);
    if d2.journal.len() == d.journal.len() {
        assert(d2.journal =~= d.journal);
    }
}

/// A run of writes that a device carried out is in its journal, and its sectors are what
/// carrying it out gives.
pub proof fn a_run_is_journaled(d: DiskView, writes: Seq<(u64, Seq<u8>)>)
    requires
        d.steady(),
        d.after_writes(writes).1 is Ok,
    ensures
        d.after_writes(writes).0.journal == d.journal + writes,
        d.after_writes(writes).0.sectors == replayed(d.sectors, writes),
        d.after_writes(writes).0.sectors.len() == d.sectors.len(),
        d.after_writes(writes).0.steady(),
        forall|k: int| 0 <= k < writes.len() ==> (#[trigger] writes[k]).0 < d.sectors.len(),
    decreases writes.len(),
{
    if writes.len() > 0 {
        let head = writes.drop_last();
        a_run_is_journaled(d, head);
        let d1 = d.after_writes(head).0;
        let w = writes.last();
        assert(d1.write_result(w.0) is Ok);
        assert(d.after_writes(writes).0.journal =~= d.journal + writes);
        assert forall|k: int| 0 <= k < writes.len() implies (#[trigger] writes[k]).0
            < d.sectors.len() by {
            if k < head.len() {
                assert(writes[k] == head[k]);
            }
        }
    } else {
        assert(d.journal + writes =~= d.journal);
    }
}

/// `n` requests are answered, and the one after them is lost.
pub open spec fn cut_after(n: nat) -> Seq<Fate> {
    Seq::new(
        n + 1,
        |i: int|
            if i < n {
                Fate::Answered
            } else {
                Fate::Lost
            },
    )
}

/// A driver that answers only so many requests leaves the device as carrying out that
/// many writes does.
pub proof fn a_cut_run_is_a_prefix(d: DiskView, writes: Seq<(u64, Seq<u8>)>, k: nat)
    requires
        forall|i: int| 0 <= i < writes.len() ==> (#[trigger] writes[i]).0 < d.sectors.len(),
    ensures
        ({
            let c = DiskView { fates: cut_after(k), ..d };
            let (d1, r) = c.after_writes(writes);
            let n = if k < writes.len() {
                k as int
            } else {
                writes.len() as int
            };
            &&& d1.sectors == replayed(d.sectors, writes.take(n))
            &&& d1.sectors.len() == d.sectors.len()
            &&& (r is Ok) == (n == writes.len())
            &&& r is Ok ==> d1.fates == c.spent(n as nat).fates
        }),
    decreases writes.len(),
{
    let c = DiskView { fates: cut_after(k), ..d };
    if writes.len() > 0 {
        let head = writes.drop_last();
        assert forall|i: int| 0 <= i < head.len() implies (#[trigger] head[i]).0
            < d.sectors.len() by {
            assert(head[i] == writes[i]);
        }
        a_cut_run_is_a_prefix(d, head, k);
        let w = writes.last();
        assert(w == writes[writes.len() - 1]);
        let d1 = c.after_writes(head).0;
        if k >= head.len() {
            requests_add_up(c, head.len(), 1);
            assert(d1.fate() == c.fates[head.len() as int]);
            assert(d1.with_sector(w.0, w.1).spent(1).fates == c.spent(head.len()).spent(1).fates);
        }
        if k >= writes.len() {
            assert(writes.take(writes.len() as int) =~= writes);
            assert(head.take(head.len() as int) =~= head);
        } else if k == head.len() {
            assert(writes.take(k as int) =~= head.take(head.len() as int));
        } else {
            assert(writes.take(k as int) =~= head.take(k as int));
        }
    } else {
        assert(writes.take(0) =~= writes);
    }
}

/// A block device behind its driver.
pub struct Disk {
    pub sectors: Vec<[u8; 512]>,
    /// What becomes of each request, from the first one on.
    pub fates: Vec<Fate>,
    /// How many of those have been met.
    pub met: usize,
    /// The writes, in order, for whoever carries them to the hardware.
    pub journal: Vec<(u64, [u8; 512])>,
}

impl View for Disk {
    type V = DiskView;

    open spec fn view(&self) -> DiskView {
        DiskView {
            sectors: self.sectors@.map_values(|s: [u8; 512]| s@),
            fates: if self.met < self.fates@.len() {
                self.fates@.skip(self.met as int)
            } else {
                Seq::empty()
            },
            journal: self.journal@.map_values(|w: (u64, [u8; 512])| (w.0, w.1@)),
        }
    }
}

impl Disk {
    /// A blank device of `sectors` sectors whose driver keeps answering.
    pub fn new(sectors: usize) -> (d: Disk)
        ensures
            d@.sectors == Seq::new(sectors as nat, |i: int| Seq::new(512, |j: int| 0u8)),
            d@.steady(),
            d@.journal == Seq::<(u64, Seq<u8>)>::empty(),
    {
        let mut v: Vec<[u8; 512]> = Vec::new();
        let blank: [u8; 512] = [0u8; 512];
        assert(blank@ =~= Seq::new(512, |j: int| 0u8));
        let mut i: usize = 0;
        while i < sectors
            invariant
                i <= sectors,
                v@.len() == i,
                blank@ == Seq::new(512, |j: int| 0u8),
                forall|k: int| 0 <= k < i ==> (#[trigger] v@[k])@ == blank@,
            decreases sectors - i,
        {
            v.push(blank);
            i = i + 1;
        }
        let d = Disk { sectors: v, fates: Vec::new(), met: 0, journal: Vec::new() };
        assert(d@.journal =~= Seq::<(u64, Seq<u8>)>::empty());
        assert(d@.sectors =~= Seq::new(sectors as nat, |i: int| Seq::new(512, |j: int| 0u8)));
        d
    }

    /// From now on the requests to come meet these fates, and those after them are
    /// answered.
    pub fn fated(&mut self, fates: Vec<Fate>)
        ensures
            final(self)@ == (DiskView { fates: fates@, ..old(self)@ }),
    {
        self.fates = fates;
        self.met = 0;
        assert(self@.fates =~= fates@);
    }

    /// What becomes of the request that is being made.
    fn meet(&mut self) -> (f: Fate)
        ensures
            f == old(self)@.fate(),
            final(self)@ == old(self)@.spent(1),
            final(self).sectors == old(self).sectors,
            final(self).journal == old(self).journal,
    {
        let ghost before = self@;
        if self.met < self.fates.len() {
            let f = self.fates[self.met];
            self.met = self.met + 1;
            assert(self@.fates =~= before.spent(1).fates);
            f
        } else {
            Fate::Answered
        }
    }

    /// Read one sector into `out`.
    pub fn read_sector(&mut self, sector: u64, out: &mut [u8; 512]) -> (r: Result<
        (),
        &'static str,
    >)
        ensures
            final(self)@ == old(self)@.after_read(),
            match old(self)@.read_result(sector) {
                Ok(data) => r is Ok && final(out)@ == data,
                Err(e) => r == Err::<(), &'static str>(e) && *final(out) == *old(out),
            },
    {
        match self.meet() {
            Fate::Answered => {},
            Fate::Lost | Fate::Late => {
                return Err("block driver did not answer");
            },
            Fate::Failed => {
                return Err("driver reported an error");
            },
        }
        if sector >= self.sectors.len() as u64 {
            return Err("driver reported an error");
        }
        *out = self.sectors[sector as usize];
        Ok(())
    }

    /// Write one sector. An error leaves open whether the data landed: a driver
    /// that stops answering may do so on either side of the device.
    pub fn write_sector(&mut self, sector: u64, data: &[u8; 512]) -> (r: Result<
        (),
        &'static str,
    >)
        ensures
            final(self)@ == old(self)@.after_write(sector, data@),
            r == old(self)@.write_result(sector),
    {
        let ghost before = self@;
        let in_range = sector < self.sectors.len() as u64;
        let fate = self.meet();
        match fate {
            Fate::Answered | Fate::Late => {
                if in_range {
                    self.sectors[sector as usize] = *data;
                    self.journal.push((sector, *data));
                }
                assert(self@.sectors =~= before.with_sector(sector, data@).sectors);
                assert(self@.journal =~= before.with_sector(sector, data@).journal);
                assert(self@.fates == before.with_sector(sector, data@).spent(1).fates);
            },
            Fate::Lost | Fate::Failed => {},
        }
        match fate {
            Fate::Answered => {
                if in_range {
                    Ok(())
                } else {
                    Err("driver reported an error")
                }
            },
            Fate::Lost | Fate::Late => Err("block driver did not answer"),
            Fate::Failed => Err("driver reported an error"),
        }
    }

    /// Every sector of a device is a whole sector.
    pub proof fn sectors_are_whole(&self)
        ensures
            self@.wf(),
    {
    }
}

// ---- the wire ---------------------------------------------------------------
//
//   request  `[op:1][tag:4][sector:8][data...]`
//   reply    `[status:1][tag:4][data...]`
//
// The tag is not decoration. Without it, a request that times out leaves its
// reply in the channel, the next request picks that up as its own, and every
// answer from then on is one behind.

pub const OP_INFO: u8 = 0;

pub const OP_READ: u8 = 1;

pub const OP_WRITE: u8 = 2;

pub const OP_SHUTDOWN: u8 = 3;

/// Longer than the driver's own worst case for one request, so a slow device
/// does not cause a timeout the driver never learns about.
pub const REPLY_TIMEOUT_TICKS: u64 = 800;

/// Bytes of op, tag and sector.
pub const HEADER: usize = 13;

/// Bytes of status and tag.
pub const REPLY_HEADER: usize = 5;

/// The channel number that stands for none.
pub const NO_CHANNEL: usize = usize::MAX;

/// A request's header.
pub open spec fn header_bytes(op: u8, tag: u32, sector: u64) -> Seq<u8> {
    seq![op] + crate::bytes::le32_bytes(tag) + crate::bytes::le64_bytes(sector)
}

/// The tag a reply carries; 0 where it is too short to carry one.
pub open spec fn tag_of(bytes: Seq<u8>) -> u32 {
    if bytes.len() < 5 {
        0
    } else {
        crate::bytes::le32(bytes, 1)
    }
}

/// The first reply at or after `i` that carries `tag`, or the queue's length.
pub open spec fn first_with_tag(q: Seq<crate::ipc::MessageView>, tag: u32, i: int) -> int
    decreases q.len() - i,
{
    if i >= q.len() || tag_of(q[i].bytes) == tag {
        i
    } else {
        first_with_tag(q, tag, i + 1)
    }
}

/// A client of a block driver.
pub struct Client {
    pub request: usize,
    pub reply: usize,
    pub capacity: u64,
    /// Requests sent since boot.
    pub requests: u64,
    pub next_tag: u32,
    /// Replies discarded because they answered a request already given up on.
    pub stale: u64,
    /// One request may be outstanding at a time: two callers interleaving on the
    /// same reply channel would take each other's answers.
    pub in_flight: bool,
}

/// A request that has been sent.
#[derive(Clone, Copy, Debug, PartialEq, Eq, Structural)]
pub struct Pending {
    pub tag: u32,
    pub deadline: u64,
}

/// One look at the reply channel.
pub enum Poll {
    /// The driver has answered, and succeeded.
    Done(Vec<u8>),
    Failed(&'static str),
    /// Nothing yet: give up the CPU and look again.
    Wait,
}

/// Build `[op][tag][sector]`, leaving the caller to append data.
pub fn header(op: u8, tag: u32, sector: u64) -> (m: Vec<u8>)
    ensures
        m@ == header_bytes(op, tag, sector),
{
    let mut m: Vec<u8> = Vec::with_capacity(HEADER);
    m.push(op);
    push_u32(&mut m, tag);
    push_u64(&mut m, sector);
    assert(m@ =~= header_bytes(op, tag, sector));
    m
}

/// The tag a reply carries; 0 where it is too short to carry one.
pub fn reply_tag(bytes: &[u8]) -> (tag: u32)
    ensures
        tag == tag_of(bytes@),
{
    if bytes.len() < REPLY_HEADER {
        return 0;
    }
    get_u32(bytes, 1)
}

impl Client {
    /// A client that no driver has been found for.
    pub fn new() -> (c: Client)
        ensures
            c == (Client {
                request: NO_CHANNEL,
                reply: NO_CHANNEL,
                capacity: 0,
                requests: 0,
                next_tag: 1,
                stale: 0,
                in_flight: false,
            }),
    {
        Client {
            request: NO_CHANNEL,
            reply: NO_CHANNEL,
            capacity: 0,
            requests: 0,
            next_tag: 1,
            stale: 0,
            in_flight: false,
        }
    }

    /// Take the single outstanding-request slot, if it is free.
    pub fn acquire(&mut self) -> (taken: bool)
        ensures
            taken == !old(self).in_flight,
            *final(self) == (Client { in_flight: true, ..*old(self) }),
    {
        let taken = !self.in_flight;
        self.in_flight = true;
        taken
    }

    /// Give the slot back.
    pub fn release(&mut self)
        ensures
            *final(self) == (Client { in_flight: false, ..*old(self) }),
    {
        self.in_flight = false;
    }
}

/// Point the client at the channels a driver is listening on.
pub fn attach(c: &mut Client, request: usize, reply: usize)
    ensures
        *final(c) == (Client { request, reply, ..*old(c) }),
{
    c.request = request;
    c.reply = reply;
}

pub fn attached(c: &Client) -> (r: bool)
    ensures
        r == (c.request != NO_CHANNEL),
{
    c.request != NO_CHANNEL
}

/// The client, the channels, and what is returned, when a request is begun.
pub open spec fn begin_outcome(
    c: Client,
    cs: Seq<crate::ipc::ChannelView>,
    body: spec_fn(u32) -> Seq<u8>,
    now: u64,
) -> (Client, Seq<crate::ipc::ChannelView>, Result<Pending, &'static str>) {
    let tag = c.next_tag;
    let c1 = Client { next_tag: tag.wrapping_add(1), ..c };
    if c.request == NO_CHANNEL {
        (c1, cs, Err("no block driver attached"))
    } else if c.request >= cs.len() {
        (c1, cs, Err("request channel is gone"))
    } else {
        (
            Client { requests: c.requests.wrapping_add(1), ..c1 },
            cs.update(
                c.request as int,
                cs[c.request as int].with_message(
                    crate::ipc::MessageView { from: usize::MAX, bytes: body(tag) },
                ),
            ),
            Ok(Pending { tag, deadline: (now + REPLY_TIMEOUT_TICKS) as u64 }),
        )
    }
}

fn begin(
    c: &mut Client,
    channels: &mut Channels,
    s: &mut Scheduler,
    op: u8,
    sector: u64,
    data: &[u8],
    now: u64,
) -> (r: Result<Pending, &'static str>)
    requires
        now + REPLY_TIMEOUT_TICKS <= u64::MAX,
    ensures
        (*final(c), final(channels)@, r) == begin_outcome(
            *old(c),
            old(channels)@,
            |tag: u32| header_bytes(op, tag, sector) + data@,
            now,
        ),
        old(s).same_but_threads(*final(s)),
        final(s).threads@ == (if r is Ok {
            crate::sched::woken_on(old(s).threads@, old(c).request as u64)
        } else {
            old(s).threads@
        }),
{
    let ghost body = |tag: u32| header_bytes(op, tag, sector) + data@;
    let tag = c.next_tag;
    c.next_tag = tag.wrapping_add(1);
    let mut msg = header(op, tag, sector);
    push_bytes(&mut msg, data);
    assert(msg@ == body(tag));
    if c.request == NO_CHANNEL {
        return Err("no block driver attached");
    }
    if send(channels, s, c.request, usize::MAX, msg).is_err() {
        return Err("request channel is gone");
    }
    c.requests = c.requests.wrapping_add(1);
    Ok(Pending { tag, deadline: now + REPLY_TIMEOUT_TICKS })
}

/// Ask the driver what it attached to.
pub fn info(c: &mut Client, channels: &mut Channels, s: &mut Scheduler, now: u64) -> (r: Result<
    Pending,
    &'static str,
>)
    requires
        now + REPLY_TIMEOUT_TICKS <= u64::MAX,
    ensures
        (*final(c), final(channels)@, r) == begin_outcome(
            *old(c),
            old(channels)@,
            |tag: u32| header_bytes(OP_INFO, tag, 0) + Seq::<u8>::empty(),
            now,
        ),
        old(s).same_but_threads(*final(s)),
        final(s).threads@ == (if r is Ok {
            crate::sched::woken_on(old(s).threads@, old(c).request as u64)
        } else {
            old(s).threads@
        }),
{
    let none: [u8; 0] = [];
    assert(none@ =~= Seq::<u8>::empty());
    begin(c, channels, s, OP_INFO, 0, &none, now)
}

/// Begin reading one sector into a buffer of `room` bytes.
pub fn read_sector(
    c: &mut Client,
    channels: &mut Channels,
    s: &mut Scheduler,
    sector: u64,
    room: usize,
    now: u64,
) -> (r: Result<Pending, &'static str>)
    requires
        now + REPLY_TIMEOUT_TICKS <= u64::MAX,
    ensures
        (*final(c), final(channels)@, r) == (if room != SECTOR_SIZE {
            (*old(c), old(channels)@, Err("reads are one sector"))
        } else {
            begin_outcome(
                *old(c),
                old(channels)@,
                |tag: u32| header_bytes(OP_READ, tag, sector) + Seq::<u8>::empty(),
                now,
            )
        }),
        old(s).same_but_threads(*final(s)),
        final(s).threads@ == (if r is Ok {
            crate::sched::woken_on(old(s).threads@, old(c).request as u64)
        } else {
            old(s).threads@
        }),
{
    if room != SECTOR_SIZE {
        return Err("reads are one sector");
    }
    let none: [u8; 0] = [];
    assert(none@ =~= Seq::<u8>::empty());
    begin(c, channels, s, OP_READ, sector, &none, now)
}

/// Begin writing one sector.
pub fn write_sector(
    c: &mut Client,
    channels: &mut Channels,
    s: &mut Scheduler,
    sector: u64,
    data: &[u8],
    now: u64,
) -> (r: Result<Pending, &'static str>)
    requires
        now + REPLY_TIMEOUT_TICKS <= u64::MAX,
    ensures
        (*final(c), final(channels)@, r) == (if data@.len() != SECTOR_SIZE {
            (*old(c), old(channels)@, Err("writes are one sector"))
        } else {
            begin_outcome(
                *old(c),
                old(channels)@,
                |tag: u32| header_bytes(OP_WRITE, tag, sector) + data@,
                now,
            )
        }),
        old(s).same_but_threads(*final(s)),
        final(s).threads@ == (if r is Ok {
            crate::sched::woken_on(old(s).threads@, old(c).request as u64)
        } else {
            old(s).threads@
        }),
{
    if data.len() != SECTOR_SIZE {
        return Err("writes are one sector");
    }
    begin(c, channels, s, OP_WRITE, sector, data, now)
}

/// Ask the driver to exit, so the machine can shut down cleanly.
pub fn shutdown(c: &mut Client, channels: &mut Channels, s: &mut Scheduler, now: u64) -> (r: Result<
    Pending,
    &'static str,
>)
    requires
        now + REPLY_TIMEOUT_TICKS <= u64::MAX,
    ensures
        (*final(c), final(channels)@, r) == begin_outcome(
            *old(c),
            old(channels)@,
            |tag: u32| header_bytes(OP_SHUTDOWN, tag, 0) + Seq::<u8>::empty(),
            now,
        ),
        old(s).same_but_threads(*final(s)),
        final(s).threads@ == (if r is Ok {
            crate::sched::woken_on(old(s).threads@, old(c).request as u64)
        } else {
            old(s).threads@
        }),
{
    let none: [u8; 0] = [];
    assert(none@ =~= Seq::<u8>::empty());
    begin(c, channels, s, OP_SHUTDOWN, 0, &none, now)
}

/// Everything one look at the reply channel decides.
pub open spec fn poll_outcome(
    c: Client,
    cs: Seq<crate::ipc::ChannelView>,
    p: Pending,
    now: u64,
) -> (int, Seq<crate::ipc::ChannelView>, Option<Result<Seq<u8>, &'static str>>) {
    let q: Seq<crate::ipc::MessageView> = if c.reply < cs.len() {
        cs[c.reply as int].queue
    } else {
        Seq::empty()
    };
    let k = first_with_tag(q, p.tag, 0);
    if k < q.len() {
        (
            k,
            cs.update(
                c.reply as int,
                crate::ipc::after_receives(cs[c.reply as int], (k + 1) as nat),
            ),
            Some(
                if q[k].bytes.len() > 0 && q[k].bytes[0] == 0 {
                    Ok(q[k].bytes)
                } else {
                    Err("driver reported an error")
                },
            ),
        )
    } else {
        (
            k,
            if c.reply < cs.len() {
                cs.update(
                    c.reply as int,
                    crate::ipc::after_receives(cs[c.reply as int], k as nat),
                )
            } else {
                cs
            },
            if now > p.deadline {
                Some(Err("block driver did not answer"))
            } else {
                None
            },
        )
    }
}

/// Look for the reply to a request. A reply to a request already given up on is
/// dropped and counted, or it would become the answer to this one.
pub fn poll(c: &mut Client, channels: &mut Channels, p: &Pending, now: u64) -> (r: Poll)
    ensures
        ({
            let (dropped, cs, verdict) = poll_outcome(*old(c), old(channels)@, *p, now);
            &&& final(channels)@ == cs
            &&& final(c).stale == (old(c).stale + dropped) % 0x1_0000_0000_0000_0000
            &&& *final(c) == (Client { stale: final(c).stale, ..*old(c) })
            &&& match r {
                Poll::Done(bytes) => verdict == Some(Ok::<Seq<u8>, &'static str>(bytes@)),
                Poll::Failed(e) => verdict == Some(Err::<Seq<u8>, &'static str>(e)),
                Poll::Wait => verdict is None,
            }
        }),
{
    let ghost cs0 = channels@;
    let ghost here = c.reply < cs0.len();
    let ghost q: Seq<crate::ipc::MessageView> = if here {
        cs0[c.reply as int].queue
    } else {
        Seq::empty()
    };
    let ghost mut n: int = 0;
    proof {
        if here {
            assert(cs0 =~= cs0.update(
                c.reply as int,
                crate::ipc::after_receives(cs0[c.reply as int], 0),
            ));
            assert(q.skip(0) =~= q);
        }
    }
    loop
        invariant
            0 <= n <= q.len(),
            old(channels)@ == cs0,
            here == (old(c).reply < cs0.len()),
            q == (if here {
                cs0[old(c).reply as int].queue
            } else {
                Seq::empty()
            }),
            first_with_tag(q, p.tag, 0) == first_with_tag(q, p.tag, n),
            c.stale == (old(c).stale + n) % 0x1_0000_0000_0000_0000,
            *c == (Client { stale: c.stale, ..*old(c) }),
            channels@.len() == cs0.len(),
            !here ==> channels@ == cs0,
            here ==> channels@ == cs0.update(
                old(c).reply as int,
                crate::ipc::after_receives(cs0[old(c).reply as int], n as nat),
            ),
            here ==> channels@[old(c).reply as int].queue == q.skip(n),
        decreases q.len() - n,
    {
        match try_recv(channels, c.reply) {
            Some(m) => {
                proof {
                    assert(q.skip(n)[0] == q[n]);
                    assert(q.skip(n).drop_first() =~= q.skip(n + 1));
                    assert(channels@ =~= cs0.update(
                        old(c).reply as int,
                        crate::ipc::after_receives(cs0[old(c).reply as int], (n + 1) as nat),
                    ));
                }
                if reply_tag(m.bytes.as_slice()) != p.tag {
                    c.stale = c.stale.wrapping_add(1);
                    proof {
                        n = n + 1;
                    }
                } else {
                    if m.bytes.len() > 0 && m.bytes[0] == 0 {
                        return Poll::Done(m.bytes);
                    }
                    return Poll::Failed("driver reported an error");
                }
            },
            None => {
                proof {
                    if here {
                        assert(channels@ =~= cs0.update(
                            old(c).reply as int,
                            crate::ipc::after_receives(cs0[old(c).reply as int], n as nat),
                        ));
                    }
                }
                if now > p.deadline {
                    return Poll::Failed("block driver did not answer");
                }
                return Poll::Wait;
            },
        }
    }
}

/// The capacity that a reply reports, if it is long enough to.
pub open spec fn capacity_in(reply: Seq<u8>) -> Option<u64> {
    if reply.len() < 13 {
        None
    } else {
        Some(crate::bytes::le64(reply, 5))
    }
}

/// The sector that a reply carries, if it is long enough to.
pub open spec fn sector_in(reply: Seq<u8>) -> Option<Seq<u8>> {
    if reply.len() < 517 {
        None
    } else {
        Some(reply.subrange(5, 517))
    }
}

/// The capacity a reply to `info` reports, which the client remembers.
pub fn info_reply(c: &mut Client, reply: &[u8]) -> (r: Result<u64, &'static str>)
    ensures
        match capacity_in(reply@) {
            None => r == Err::<u64, &'static str>("short info reply") && *final(c) == *old(c),
            Some(capacity) => r == Ok::<u64, &'static str>(capacity) && *final(c) == (Client {
                capacity,
                ..*old(c)
            }),
        },
{
    if reply.len() < REPLY_HEADER + 8 {
        return Err("short info reply");
    }
    let capacity = get_u64(reply, REPLY_HEADER);
    c.capacity = capacity;
    Ok(capacity)
}

/// The sector a reply to a read carries.
pub fn read_reply(reply: &[u8], out: &mut [u8; 512]) -> (r: Result<(), &'static str>)
    ensures
        match sector_in(reply@) {
            None => r == Err::<(), &'static str>("short read reply") && *final(out) == *old(out),
            Some(data) => r is Ok && final(out)@ == data,
        },
{
    if reply.len() < REPLY_HEADER + SECTOR_SIZE {
        return Err("short read reply");
    }
    let mut i: usize = 0;
    while i < SECTOR_SIZE
        invariant
            i <= 512,
            reply@.len() >= 517,
            forall|k: int| 0 <= k < i ==> out@[k] == reply@[5 + k],
        decreases 512 - i,
    {
        out[i] = reply[REPLY_HEADER + i];
        i = i + 1;
    }
    assert(out@ =~= reply@.subrange(5, 517));
    Ok(())
}

pub fn capacity_sectors(c: &Client) -> (n: u64)
    ensures
        n == c.capacity,
{
    c.capacity
}

/// Replies discarded because they answered a request that had already timed
/// out. Anything but zero means the driver is running late.
pub fn stale_replies(c: &Client) -> (n: u64)
    ensures
        n == c.stale,
{
    c.stale
}

/// Requests sent since boot.
pub fn request_count(c: &Client) -> (n: u64)
    ensures
        n == c.requests,
{
    c.requests
}

/// A late reply never answers a later request: whatever is queued ahead of it,
/// a request is answered only by a reply that carries its own tag.
pub proof fn only_its_own_reply_answers(
    c: Client,
    cs: Seq<crate::ipc::ChannelView>,
    p: Pending,
    now: u64,
)
    requires
        c.reply < cs.len(),
    ensures
        ({
            let (k, _, verdict) = poll_outcome(c, cs, p, now);
            let q = cs[c.reply as int].queue;
            &&& verdict matches Some(Ok(bytes)) ==> {
                &&& k < q.len()
                &&& bytes == q[k].bytes
                &&& tag_of(bytes) == p.tag
            }
            &&& forall|i: int| 0 <= i < k ==> tag_of((#[trigger] q[i]).bytes) != p.tag
        }),
{
    lemma_first_with_tag(cs[c.reply as int].queue, p.tag, 0);
}

proof fn lemma_first_with_tag(q: Seq<crate::ipc::MessageView>, tag: u32, i: int)
    requires
        0 <= i <= q.len(),
    ensures
        i <= first_with_tag(q, tag, i) <= q.len(),
        forall|k: int| i <= k < first_with_tag(q, tag, i) ==> tag_of((#[trigger] q[k]).bytes) != tag,
        first_with_tag(q, tag, i) < q.len() ==> tag_of(q[first_with_tag(q, tag, i)].bytes) == tag,
    decreases q.len() - i,
{
    if i < q.len() && tag_of(q[i].bytes) != tag {
        lemma_first_with_tag(q, tag, i + 1);
    }
}

} // verus!
