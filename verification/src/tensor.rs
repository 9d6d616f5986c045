//! The tensor scheduler: accelerator time as a scheduled resource.
//!
//! A unit of inference work is a *job*, and a job carries what the scheduler
//! needs to make a decision: a class, saying how much latency it can tolerate; a
//! deadline, where it has one, so the scheduler can refuse the work rather than
//! accept it and miss; and a segment count, because that is the granularity at
//! which an accelerator can actually be taken away.
//!
//! A graph is split into segments with bounded runtime, and a higher-priority
//! job lands *between* them. The device runs a segment; everything here is the
//! decision of whose segment that is and the account of what it cost.
use vstd::prelude::*;
use crate::sched::{prepare_block, wake_all_on, Scheduler};
use crate::smp::Cpu;

verus! {

/// How urgent a job is, and therefore what it may take the device away from.
#[derive(Clone, Copy, PartialEq, Eq, PartialOrd, Ord, Debug, Structural)]
pub enum Qos {
    /// The user is waiting on this right now — voice, keyboard, camera assist.
    Interactive,
    /// The user asked for it and is watching.
    Foreground,
    /// Indexing, summarising. Nobody is waiting.
    Background,
    /// Runs only when nothing else wants the device.
    Opportunistic,
}

/// A class as a number: a lower one outranks a higher one.
pub open spec fn rank_of(q: Qos) -> u64 {
    match q {
        Qos::Interactive => 0,
        Qos::Foreground => 1,
        Qos::Background => 2,
        Qos::Opportunistic => 3,
    }
}

impl Qos {
    pub fn from_u64(v: u64) -> (q: Qos)
        ensures
            rank_of(q) == if v < 3 {
                v
            } else {
                3
            },
    {
        match v {
            0 => Qos::Interactive,
            1 => Qos::Foreground,
            2 => Qos::Background,
            _ => Qos::Opportunistic,
        }
    }

    /// The class as a number: a lower one outranks a higher one.
    pub fn rank(&self) -> (r: u64)
        ensures
            r == rank_of(*self),
    {
        match self {
            Qos::Interactive => 0,
            Qos::Foreground => 1,
            Qos::Background => 2,
            Qos::Opportunistic => 3,
        }
    }

    pub fn label(&self) -> (r: &'static str)
        ensures
            r == (match *self {
                Qos::Interactive => "interactive",
                Qos::Foreground => "foreground",
                Qos::Background => "background",
                Qos::Opportunistic => "opportunistic",
            }),
    {
        match self {
            Qos::Interactive => "interactive",
            Qos::Foreground => "foreground",
            Qos::Background => "background",
            Qos::Opportunistic => "opportunistic",
        }
    }
}

/// Assumed power draw of the accelerator while a segment runs, in milliwatts.
/// Energy below is this times measured time — a model, not a measurement.
pub const DEVICE_POWER_MW: u64 = 2500;

/// Starting guess for segment cost, replaced by measurement after the first.
pub const INITIAL_SEGMENT_US: u64 = 1000;

#[derive(Clone, Copy, PartialEq, Eq, Debug, Structural)]
pub enum JobState {
    Queued,
    Running,
    Done,
    /// Refused at submission because its deadline could not be met.
    Refused,
}

/// A job's state as a number.
pub open spec fn state_code(s: JobState) -> u64 {
    match s {
        JobState::Queued => 0,
        JobState::Running => 1,
        JobState::Done => 2,
        JobState::Refused => 3,
    }
}

#[derive(Clone, Copy)]
pub struct Job {
    pub id: u64,
    pub owner: usize,
    pub qos: Qos,
    pub segments: u32,
    pub done_segments: u32,
    /// Absolute microsecond deadline, if it has one.
    pub deadline_us: Option<u64>,
    pub submitted_us: u64,
    pub finished_us: u64,
    pub state: JobState,
    /// Times the device was taken away from this job mid-run.
    pub preemptions: u64,
    /// Modelled energy, in microjoules.
    pub energy_uj: u64,
    /// Measured device time, in microseconds.
    pub device_us: u64,
}

/// Whether a job is admitted and not over.
pub open spec fn is_active(j: Job) -> bool {
    j.state == JobState::Queued || j.state == JobState::Running
}

/// Whether a job has a segment to run.
pub open spec fn is_runnable(j: Job) -> bool {
    is_active(j) && j.done_segments < j.segments
}

/// A job's deadline, a job without one counting as infinitely patient.
pub open spec fn due(j: Job) -> u64 {
    match j.deadline_us {
        Some(d) => d,
        None => u64::MAX,
    }
}

/// Whether `a` goes before `b`: higher class first, then nearer deadline.
pub open spec fn goes_before(a: Job, b: Job) -> bool {
    rank_of(a.qos) < rank_of(b.qos) || (a.qos == b.qos && due(a) < due(b))
}

/// Latency so far, or in the end.
pub open spec fn latency_at(j: Job, now: u64) -> int {
    let end = if j.state == JobState::Done {
        j.finished_us
    } else {
        now
    };
    if end >= j.submitted_us {
        end - j.submitted_us
    } else {
        0
    }
}

/// Whether a finished job with a deadline met it.
pub open spec fn deadline_met(j: Job) -> Option<bool> {
    if j.state != JobState::Done {
        None
    } else {
        match j.deadline_us {
            None => None,
            Some(d) => Some(j.finished_us <= d),
        }
    }
}

impl Job {
    /// Latency so far, in microseconds.
    pub fn latency_us(&self, now: u64) -> (r: u64)
        ensures
            r == latency_at(*self, now),
    {
        let end: u64 = if self.state == JobState::Done {
            self.finished_us
        } else {
            now
        };
        end.saturating_sub(self.submitted_us)
    }

    /// Whether this job met its deadline. `None` if it had none, or has not
    /// finished — a refused job never ran, and reporting it as "met" because
    /// its finish time is zero would be the most flattering possible lie.
    pub fn met_deadline(&self) -> (r: Option<bool>)
        ensures
            r == deadline_met(*self),
    {
        if self.state != JobState::Done {
            return None;
        }
        match self.deadline_us {
            None => None,
            Some(d) => Some(self.finished_us <= d),
        }
    }

    pub fn state_label(&self) -> (r: &'static str)
        ensures
            r == (match self.state {
                JobState::Queued => "queued",
                JobState::Running => "running",
                JobState::Done => "done",
                JobState::Refused => "refused",
            }),
    {
        match self.state {
            JobState::Queued => "queued",
            JobState::Running => "running",
            JobState::Done => "done",
            JobState::Refused => "refused",
        }
    }
}

/// The accelerator, as the scheduler knows it.
pub struct Device {
    pub jobs: Vec<Job>,
    pub next_id: u64,
    /// Running average of what a segment actually costs.
    pub us_per_segment: u64,
    /// The job the device ran last, for counting preemptions.
    pub last_run: Option<u64>,
    pub segments_run: u64,
    pub refused: u64,
    pub preemptions: u64,
}

/// Why a submission was refused.
#[derive(Clone, Copy, PartialEq, Eq, Debug, Structural)]
pub enum Reject {
    /// The work does not fit before the deadline, even at the front of the queue.
    Undeliverable { needed_us: u64, available_us: u64 },
}

/// Segments still to run of work that a job of class `qos` cannot push in front
/// of.
pub open spec fn segments_ahead(jobs: Seq<Job>, qos: Qos) -> int
    decreases jobs.len(),
{
    if jobs.len() == 0 {
        0
    } else {
        let j = jobs.last();
        segments_ahead(jobs.drop_last(), qos) + if is_active(j) && rank_of(j.qos) <= rank_of(qos) {
            j.segments - j.done_segments
        } else {
            0
        }
    }
}

/// The job a submission records.
pub open spec fn new_job(
    id: u64,
    owner: usize,
    qos: Qos,
    segments: u32,
    deadline_us: Option<u64>,
    now: u64,
    state: JobState,
) -> Job {
    Job {
        id,
        owner,
        qos,
        segments,
        done_segments: 0,
        deadline_us,
        submitted_us: now,
        finished_us: 0,
        state,
        preemptions: 0,
        energy_uj: 0,
        device_us: 0,
    }
}

/// The first job with identifier `id`, at or after `i`.
pub open spec fn job_index(jobs: Seq<Job>, id: u64, i: int) -> Option<int>
    decreases jobs.len() - i,
{
    if i >= jobs.len() {
        None
    } else if jobs[i].id == id {
        Some(i)
    } else {
        job_index(jobs, id, i + 1)
    }
}

/// The job that goes first among the first `n`, the earliest submitted of equals.
pub open spec fn first_of(jobs: Seq<Job>, n: int) -> Option<int>
    decreases n,
{
    if n <= 0 {
        None
    } else {
        let b = first_of(jobs, n - 1);
        let j = jobs[n - 1];
        if !is_runnable(j) {
            b
        } else {
            match b {
                None => Some(n - 1),
                Some(k) => if goes_before(j, jobs[k]) {
                    Some(n - 1)
                } else {
                    Some(k)
                },
            }
        }
    }
}

/// Where the preemption of job `prev` is recorded: the first job of that
/// identifier which still has work.
pub open spec fn preempted_index(jobs: Seq<Job>, prev: u64, i: int) -> Option<int>
    decreases jobs.len() - i,
{
    if i >= jobs.len() {
        None
    } else if jobs[i].id == prev && jobs[i].done_segments < jobs[i].segments {
        Some(i)
    } else {
        preempted_index(jobs, prev, i + 1)
    }
}

/// The jobs after the device has been taken from `last_run` for job `id`, and
/// whether that was a preemption.
pub open spec fn after_handover(jobs: Seq<Job>, last_run: Option<u64>, id: u64) -> (Seq<Job>, bool) {
    match last_run {
        Some(prev) if prev != id => match preempted_index(jobs, prev, 0) {
            Some(p) => (
                jobs.update(
                    p,
                    Job { preemptions: jobs[p].preemptions.wrapping_add(1), ..jobs[p] },
                ),
                true,
            ),
            None => (jobs, false),
        },
        _ => (jobs, false),
    }
}

/// The jobs once the device has been given to the one that should have it, which that is,
/// and whether it was taken from another.
pub open spec fn given_out(jobs: Seq<Job>, last_run: Option<u64>) -> (
    Seq<Job>,
    Option<u64>,
    bool,
) {
    match first_of(jobs, jobs.len() as int) {
        None => (jobs, None, false),
        Some(i) => {
            let id = jobs[i].id;
            let (after, took) = after_handover(jobs, last_run, id);
            (after.update(i, Job { state: JobState::Running, ..after[i] }), Some(id), took)
        },
    }
}

/// The running average of what a segment costs, once one has taken `elapsed`.
pub open spec fn averaged(cost: u64, elapsed: u64) -> int {
    (cost * 3 + elapsed) / 4
}

/// Why a job is refused, if it is: it and what it cannot push in front of do not fit the
/// window.
pub open spec fn refusal(
    jobs: Seq<Job>,
    qos: Qos,
    segments: u32,
    cost: u64,
    window: Option<u64>,
) -> Option<Reject> {
    let total = (segments + segments_ahead(jobs, qos)) * cost;
    match window {
        Some(w) if total > w => Some(
            Reject::Undeliverable { needed_us: total as u64, available_us: w },
        ),
        _ => None,
    }
}

/// A job after one of its segments has run.
pub open spec fn after_segment(j: Job, elapsed: u64, now: u64) -> Job {
    let ran = Job {
        done_segments: (j.done_segments + 1) as u32,
        device_us: j.device_us.wrapping_add(elapsed),
        energy_uj: j.energy_uj.wrapping_add((elapsed * DEVICE_POWER_MW / 1000) as u64),
        ..j
    };
    if ran.done_segments >= j.segments {
        Job { state: JobState::Done, finished_us: now, ..ran }
    } else {
        ran
    }
}

impl Device {
    /// Identifiers are handed out in order, and no job has run more than it has.
    pub open spec fn wf(&self) -> bool {
        &&& forall|i: int|
            0 <= i < self.jobs@.len() ==> (#[trigger] self.jobs@[i]).id < self.next_id
                && self.jobs@[i].done_segments <= self.jobs@[i].segments
        &&& forall|i: int, k: int|
            0 <= i < k < self.jobs@.len() ==> (#[trigger] self.jobs@[i]).id < (
            #[trigger] self.jobs@[k]).id
    }

    pub fn new() -> (d: Device)
        ensures
            d.wf(),
            d.jobs@ == Seq::<Job>::empty(),
            d.next_id == 1,
            d.us_per_segment == INITIAL_SEGMENT_US,
            d.last_run is None,
            d.segments_run == 0,
            d.refused == 0,
            d.preemptions == 0,
    {
        Device {
            jobs: Vec::new(),
            next_id: 1,
            us_per_segment: INITIAL_SEGMENT_US,
            last_run: None,
            segments_run: 0,
            refused: 0,
            preemptions: 0,
        }
    }

    fn index_of(&self, id: u64) -> (r: Option<usize>)
        ensures
            match r {
                Some(i) => job_index(self.jobs@, id, 0) == Some(i as int) && i < self.jobs@.len()
                    && self.jobs@[i as int].id == id,
                None => job_index(self.jobs@, id, 0) is None,
            },
    {
        let mut i: usize = 0;
        while i < self.jobs.len()
            invariant
                i <= self.jobs@.len(),
                job_index(self.jobs@, id, 0) == job_index(self.jobs@, id, i as int),
            decreases self.jobs@.len() - i,
        {
            if self.jobs[i].id == id {
                return Some(i);
            }
            i = i + 1;
        }
        None
    }
}

proof fn lemma_ahead_bounds(jobs: Seq<Job>, qos: Qos, n: int)
    requires
        0 <= n <= jobs.len(),
        forall|i: int|
            0 <= i < jobs.len() ==> (#[trigger] jobs[i]).done_segments <= jobs[i].segments,
    ensures
        0 <= segments_ahead(jobs.take(n), qos) <= segments_ahead(jobs, qos),
    decreases jobs.len(),
{
    if n == jobs.len() {
        assert(jobs.take(n) =~= jobs);
        if n > 0 {
            let head = jobs.drop_last();
            assert forall|i: int| 0 <= i < head.len() implies (#[trigger] head[i]).done_segments
                <= head[i].segments by {
                assert(head[i] == jobs[i]);
            }
            lemma_ahead_bounds(head, qos, head.len() as int);
            assert(head.take(head.len() as int) =~= head);
            assert(jobs.last() == jobs[n - 1]);
        }
    } else {
        let head = jobs.drop_last();
        assert forall|i: int| 0 <= i < head.len() implies (#[trigger] head[i]).done_segments
            <= head[i].segments by {
            assert(head[i] == jobs[i]);
        }
        lemma_ahead_bounds(head, qos, n);
        assert(head.take(n) =~= jobs.take(n));
        assert(jobs.last() == jobs[jobs.len() - 1]);
    }
}

/// Offer a job to the device.
///
/// A job with a deadline is admitted only if it can actually be met, given what
/// is already queued at its priority or above. Refusing is the point: a system
/// that accepts everything and misses silently gives an application no way to
/// degrade gracefully.
pub fn submit(
    dev: &mut Device,
    now: u64,
    owner: usize,
    qos: Qos,
    segments: u32,
    deadline_in_us: Option<u64>,
) -> (r: Result<u64, Reject>)
    requires
        old(dev).wf(),
        old(dev).next_id < u64::MAX,
        segments * old(dev).us_per_segment <= u64::MAX,
        deadline_in_us matches Some(w) ==> now + w <= u64::MAX && (segments + segments_ahead(
            old(dev).jobs@,
            qos,
        )) * old(dev).us_per_segment <= u64::MAX,
    ensures
        final(dev).wf(),
        ({
            let d = *old(dev);
            let why = refusal(d.jobs@, qos, segments, d.us_per_segment, deadline_in_us);
            let deadline = match deadline_in_us {
                Some(w) => Some((now + w) as u64),
                None => None,
            };
            let refuse = why is Some;
            let state = if refuse {
                JobState::Refused
            } else {
                JobState::Queued
            };
            &&& r == (match why {
                Some(e) => Err(e),
                None => Ok(d.next_id),
            })
            &&& final(dev).jobs@ == d.jobs@.push(
                new_job(d.next_id, owner, qos, segments, deadline, now, state),
            )
            &&& final(dev).next_id == d.next_id + 1
            &&& final(dev).refused == if refuse {
                d.refused.wrapping_add(1)
            } else {
                d.refused
            }
            &&& final(dev).us_per_segment == d.us_per_segment
            &&& final(dev).last_run == d.last_run
            &&& final(dev).segments_run == d.segments_run
            &&& final(dev).preemptions == d.preemptions
        }),
{
    let cost = dev.us_per_segment;
    let ghost all = segments_ahead(dev.jobs@, qos);
    let needed_us: u64 = segments as u64 * cost;
    let id = dev.next_id;
    let mut deadline: Option<u64> = None;
    match deadline_in_us {
        Some(window) => {
            deadline = Some(now + window);
            // Work already queued that this job cannot push in front of.
            let mut ahead: u64 = 0;
            let mut i: usize = 0;
            assert(dev.jobs@.take(0) =~= Seq::empty());
            while i < dev.jobs.len()
                invariant
                    dev.wf(),
                    *dev == *old(dev),
                    i <= dev.jobs@.len(),
                    all == segments_ahead(dev.jobs@, qos),
                    cost == dev.us_per_segment,
                    needed_us == segments * cost,
                    (segments + all) * cost <= u64::MAX,
                    ahead == segments_ahead(dev.jobs@.take(i as int), qos) * cost,
                decreases dev.jobs@.len() - i,
            {
                let j = dev.jobs[i];
                let ghost before = segments_ahead(dev.jobs@.take(i as int), qos);
                let ghost after = segments_ahead(dev.jobs@.take(i + 1), qos);
                proof {
                    assert(dev.jobs@[i as int].done_segments <= dev.jobs@[i as int].segments);
                    lemma_ahead_bounds(dev.jobs@, qos, i + 1);
                    assert(dev.jobs@.take(i + 1).drop_last() =~= dev.jobs@.take(i as int));
                    assert(after * cost <= (segments + all) * cost) by (nonlinear_arith)
                        requires
                            0 <= after <= all,
                            cost >= 0,
                            segments >= 0,
                    ;
                }
                if (j.state == JobState::Queued || j.state == JobState::Running) && j.qos.rank()
                    <= qos.rank() {
                    let left: u32 = j.segments - j.done_segments;
                    proof {
                        assert(after == before + left);
                        assert(before * cost + left * cost == after * cost) by (nonlinear_arith)
                            requires
                                after == before + left,
                        ;
                        lemma_ahead_bounds(dev.jobs@, qos, i as int);
                        assert(before * cost >= 0) by (nonlinear_arith)
                            requires
                                before >= 0,
                                cost >= 0,
                        ;
                    }
                    ahead = ahead + left as u64 * cost;
                }
                i = i + 1;
            }
            assert(dev.jobs@.take(i as int) =~= dev.jobs@);
            proof {
                assert(needed_us + ahead == (segments + all) * cost) by (nonlinear_arith)
                    requires
                        needed_us == segments * cost,
                        ahead == all * cost,
                ;
            }
            if needed_us + ahead > window {
                dev.refused = dev.refused.wrapping_add(1);
                dev.next_id = id + 1;
                dev.jobs.push(
                    Job {
                        id,
                        owner,
                        qos,
                        segments,
                        done_segments: 0,
                        deadline_us: deadline,
                        submitted_us: now,
                        finished_us: 0,
                        state: JobState::Refused,
                        preemptions: 0,
                        energy_uj: 0,
                        device_us: 0,
                    },
                );
                return Err(
                    Reject::Undeliverable { needed_us: needed_us + ahead, available_us: window },
                );
            }
        },
        None => {},
    }
    dev.next_id = id + 1;
    dev.jobs.push(
        Job {
            id,
            owner,
            qos,
            segments,
            done_segments: 0,
            deadline_us: deadline,
            submitted_us: now,
            finished_us: 0,
            state: JobState::Queued,
            preemptions: 0,
            energy_uj: 0,
            device_us: 0,
        },
    );
    Ok(id)
}

/// Pick the next job: highest class first, and within a class the nearest
/// deadline. Opportunistic work is only chosen when nothing else is waiting,
/// which is what makes it the elastic band rather than just low priority.
pub fn pick(dev: &Device) -> (r: Option<usize>)
    ensures
        match r {
            Some(i) => first_of(dev.jobs@, dev.jobs@.len() as int) == Some(i as int) && i
                < dev.jobs@.len() && is_runnable(dev.jobs@[i as int]),
            None => first_of(dev.jobs@, dev.jobs@.len() as int) is None,
        },
{
    let mut best: Option<usize> = None;
    let mut i: usize = 0;
    while i < dev.jobs.len()
        invariant
            i <= dev.jobs@.len(),
            match best {
                Some(b) => first_of(dev.jobs@, i as int) == Some(b as int) && b < i && is_runnable(
                    dev.jobs@[b as int],
                ),
                None => first_of(dev.jobs@, i as int) is None,
            },
        decreases dev.jobs@.len() - i,
    {
        let j = dev.jobs[i];
        if (j.state == JobState::Queued || j.state == JobState::Running) && j.done_segments
            < j.segments {
            let better = match best {
                None => true,
                Some(b) => {
                    let c = dev.jobs[b];
                    let dj: u64 = match j.deadline_us {
                        Some(d) => d,
                        None => u64::MAX,
                    };
                    let dc: u64 = match c.deadline_us {
                        Some(d) => d,
                        None => u64::MAX,
                    };
                    j.qos.rank() < c.qos.rank() || (j.qos == c.qos && dj < dc)
                },
            };
            if better {
                best = Some(i);
            }
        }
        i = i + 1;
    }
    best
}

/// The arithmetic of one segment after `i` of its iterations.
pub open spec fn segment_value(i: nat) -> u64
    decreases i,
{
    if i == 0 {
        0x9E37_79B9_7F4A_7C15
    } else {
        let a = segment_value((i - 1) as nat).wrapping_mul(6364136223846793005).wrapping_add(
            (i - 1) as u64,
        );
        a ^ (a >> 29)
    }
}

/// One segment of work: a bounded, non-preemptible chunk of arithmetic. The
/// number is meaningless; the time it takes is not, because that is what the
/// scheduler measures and budgets against.
pub fn run_segment(iterations: u64) -> (acc: u64)
    ensures
        acc == segment_value(iterations as nat),
{
    let mut acc: u64 = 0x9E37_79B9_7F4A_7C15;
    let mut i: u64 = 0;
    while i < iterations
        invariant
            i <= iterations,
            acc == segment_value(i as nat),
        decreases iterations - i,
    {
        let a: u64 = acc.wrapping_mul(6364136223846793005).wrapping_add(i);
        acc = a ^ (a >> 29);
        i = i + 1;
    }
    acc
}

/// The worker's first half: give the device to the job that should have it, and
/// say which that is. Taking the device from a job that still has work is a
/// preemption, and goes on that job's record.
pub fn worker(dev: &mut Device) -> (chosen: Option<u64>)
    requires
        old(dev).wf(),
    ensures
        final(dev).wf(),
        final(dev).next_id == old(dev).next_id,
        final(dev).us_per_segment == old(dev).us_per_segment,
        final(dev).segments_run == old(dev).segments_run,
        final(dev).refused == old(dev).refused,
        final(dev).last_run == chosen,
        ({
            let (jobs, id, took) = given_out(old(dev).jobs@, old(dev).last_run);
            &&& chosen == id
            &&& final(dev).jobs@ == jobs
            &&& final(dev).preemptions == if took {
                old(dev).preemptions.wrapping_add(1)
            } else {
                old(dev).preemptions
            }
        }),
{
    match pick(dev) {
        None => {
            dev.last_run = None;
            None
        },
        Some(i) => {
            let id = dev.jobs[i].id;
            match dev.last_run {
                Some(prev) => {
                    if prev != id {
                        let mut p: usize = 0;
                        let mut found = false;
                        while p < dev.jobs.len() && !found
                            invariant
                                *dev == *old(dev),
                                p <= dev.jobs@.len(),
                                found ==> p < dev.jobs@.len() && preempted_index(
                                    dev.jobs@,
                                    prev,
                                    0,
                                ) == Some(p as int) && dev.jobs@[p as int].id == prev,
                                !found ==> preempted_index(dev.jobs@, prev, 0) == preempted_index(
                                    dev.jobs@,
                                    prev,
                                    p as int,
                                ),
                            decreases dev.jobs@.len() - p + if found { 0int } else { 1 },
                        {
                            let j = dev.jobs[p];
                            if j.id == prev && j.done_segments < j.segments {
                                found = true;
                            } else {
                                p = p + 1;
                            }
                        }
                        if found {
                            let j = dev.jobs[p];
                            dev.jobs[p] = Job { preemptions: j.preemptions.wrapping_add(1), ..j };
                            dev.preemptions = dev.preemptions.wrapping_add(1);
                        }
                    }
                },
                None => {},
            }
            dev.last_run = Some(id);
            let j = dev.jobs[i];
            dev.jobs[i] = Job { state: JobState::Running, ..j };
            Some(id)
        },
    }
}

/// The worker's second half: a segment of job `id` took `elapsed` microseconds.
/// Accounts for it, folds it into the running average, and wakes whoever waits
/// for the job if it is finished. Gives the job if it is.
pub fn segment_done(dev: &mut Device, s: &mut Scheduler, id: u64, elapsed: u64, now: u64) -> (finished:
    Option<u64>)
    requires
        old(dev).wf(),
        job_index(old(dev).jobs@, id, 0) matches Some(i) ==> old(dev).jobs@[i].done_segments
            < old(dev).jobs@[i].segments,
        old(dev).us_per_segment * 3 + elapsed <= u64::MAX,
        elapsed * DEVICE_POWER_MW <= u64::MAX,
    ensures
        final(dev).wf(),
        final(dev).us_per_segment == averaged(old(dev).us_per_segment, elapsed),
        final(dev).segments_run == old(dev).segments_run.wrapping_add(1),
        final(dev).next_id == old(dev).next_id,
        final(dev).last_run == old(dev).last_run,
        final(dev).refused == old(dev).refused,
        final(dev).preemptions == old(dev).preemptions,
        old(s).same_but_threads(*final(s)),
        match job_index(old(dev).jobs@, id, 0) {
            None => {
                &&& finished is None
                &&& final(dev).jobs@ == old(dev).jobs@
                &&& final(s).threads@ == old(s).threads@
            },
            Some(i) => {
                let j = after_segment(old(dev).jobs@[i], elapsed, now);
                let over = j.done_segments >= j.segments;
                &&& final(dev).jobs@ == old(dev).jobs@.update(i, j)
                &&& finished == if over {
                    Some(id)
                } else {
                    None
                }
                &&& final(s).threads@ == if over {
                    crate::sched::woken_on(old(s).threads@, job_token(id))
                } else {
                    old(s).threads@
                }
            },
        },
{
    let cost = dev.us_per_segment;
    // Exponential average, so admission decisions track reality rather than the
    // guess this started with.
    dev.us_per_segment = (cost * 3 + elapsed) / 4;
    dev.segments_run = dev.segments_run.wrapping_add(1);
    match dev.index_of(id) {
        None => None,
        Some(i) => {
            let j = dev.jobs[i];
            let energy: u64 = elapsed * DEVICE_POWER_MW / 1000;
            let mut ran = Job {
                done_segments: j.done_segments + 1,
                device_us: j.device_us.wrapping_add(elapsed),
                energy_uj: j.energy_uj.wrapping_add(energy),
                ..j
            };
            let over = ran.done_segments >= ran.segments;
            if over {
                ran.state = JobState::Done;
                ran.finished_us = now;
            }
            dev.jobs[i] = ran;
            if over {
                wake_all_on(s, token(id));
                return Some(id);
            }
            None
        },
    }
}

/// What asking after a job says, and what it does to the thread that asks.
pub open spec fn looked_up(
    jobs: Seq<Job>,
    ts: Seq<crate::sched::Thread>,
    ts1: Seq<crate::sched::Thread>,
    current: usize,
    id: u64,
    token: u64,
    r: Option<bool>,
) -> bool {
    let state = match job_index(jobs, id, 0) {
        Some(i) => Some(jobs[i].state),
        None => None,
    };
    &&& r == (match state {
        Some(JobState::Done) => Some(true),
        Some(JobState::Refused) => Some(false),
        _ => None,
    })
    &&& ts1 == (if state is Some && r is None {
        crate::sched::with_state(
            ts,
            current as int,
            crate::sched::State::Blocked(token),
        )
    } else {
        ts
    })
}

/// Has this job finished? Marks the caller as waiting if not, in the same step —
/// the discipline a channel receive uses, and for the same reason.
pub fn finished_or_prepare(dev: &Device, s: &mut Scheduler, cpu: &Cpu, id: u64, token: u64) -> (r:
    Option<bool>)
    requires
        cpu.current < old(s).threads@.len(),
    ensures
        old(s).same_but_threads(*final(s)),
        looked_up(
            dev.jobs@,
            old(s).threads@,
            final(s).threads@,
            cpu.current,
            id,
            token,
            r,
        ),
{
    match dev.index_of(id) {
        None => None,
        Some(i) => match dev.jobs[i].state {
            JobState::Done => Some(true),
            JobState::Refused => Some(false),
            _ => {
                prepare_block(s, cpu, token);
                None
            },
        },
    }
}

/// The wake token of a job.
pub open spec fn job_token(id: u64) -> u64 {
    0x7E45_0000_0000u64 | id
}

/// Wake token for a job.
pub fn token(id: u64) -> (t: u64)
    ensures
        t == job_token(id),
{
    0x7E45_0000_0000u64 | id
}

/// (id, class, segments, done, latency us, deadline us or 0, met, preemptions,
/// energy uj, device us, state)
pub fn stat(dev: &Device, id: u64, now: u64) -> (r: Option<
    (u64, u64, u32, u32, u64, u64, u64, u64, u64, u64, u64),
>)
    ensures
        match job_index(dev.jobs@, id, 0) {
            None => r is None,
            Some(i) => {
                let j = dev.jobs@[i];
                r == Some(
                    (
                        j.id,
                        rank_of(j.qos),
                        j.segments,
                        j.done_segments,
                        latency_at(j, now) as u64,
                        match j.deadline_us {
                            Some(d) => d,
                            None => 0,
                        },
                        match deadline_met(j) {
                            Some(true) => 1u64,
                            Some(false) => 0,
                            None => 2,
                        },
                        j.preemptions,
                        j.energy_uj,
                        j.device_us,
                        state_code(j.state),
                    ),
                )
            },
        },
{
    match dev.index_of(id) {
        None => None,
        Some(i) => {
            let j = dev.jobs[i];
            let deadline: u64 = match j.deadline_us {
                Some(d) => d,
                None => 0,
            };
            let met: u64 = match j.met_deadline() {
                Some(m) => if m {
                    1
                } else {
                    0
                },
                None => 2,
            };
            let state: u64 = match j.state {
                JobState::Queued => 0,
                JobState::Running => 1,
                JobState::Done => 2,
                JobState::Refused => 3,
            };
            Some(
                (
                    j.id,
                    j.qos.rank(),
                    j.segments,
                    j.done_segments,
                    j.latency_us(now),
                    deadline,
                    met,
                    j.preemptions,
                    j.energy_uj,
                    j.device_us,
                    state,
                ),
            )
        },
    }
}

/// Hand every job to `f`, oldest first.
pub fn for_each<F: Fn(&Job)>(dev: &Device, f: F)
    requires
        forall|i: int|
            0 <= i < dev.jobs@.len() ==> call_requires(f, (&#[trigger] dev.jobs@[i],)),
    ensures
        forall|i: int|
            0 <= i < dev.jobs@.len() ==> call_ensures(f, (&#[trigger] dev.jobs@[i],), ()),
{
    let mut i: usize = 0;
    while i < dev.jobs.len()
        invariant
            i <= dev.jobs@.len(),
            forall|k: int|
                0 <= k < dev.jobs@.len() ==> call_requires(f, (&#[trigger] dev.jobs@[k],)),
            forall|k: int| 0 <= k < i ==> call_ensures(f, (&#[trigger] dev.jobs@[k],), ()),
        decreases dev.jobs@.len() - i,
    {
        f(&dev.jobs[i]);
        i = i + 1;
    }
}

/// Measured cost of one segment, in microseconds.
pub fn segment_cost_us(dev: &Device) -> (c: u64)
    ensures
        c == dev.us_per_segment,
{
    dev.us_per_segment
}

/// (segments executed, jobs refused, preemptions)
pub fn totals(dev: &Device) -> (r: (u64, u64, u64))
    ensures
        r == (dev.segments_run, dev.refused, dev.preemptions),
{
    (dev.segments_run, dev.refused, dev.preemptions)
}

} // verus!
