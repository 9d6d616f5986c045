//! What the tensor scheduler promises as a whole.
use vstd::prelude::*;
use crate::tensor::{Job, JobState, Qos};

verus! {

proof fn lemma_first_of(jobs: Seq<Job>, n: int)
    requires
        0 <= n <= jobs.len(),
    ensures
        match crate::tensor::first_of(jobs, n) {
            Some(k) => {
                &&& 0 <= k < n
                &&& crate::tensor::is_runnable(jobs[k])
                &&& forall|i: int|
                    0 <= i < n && crate::tensor::is_runnable(#[trigger] jobs[i])
                        ==> !crate::tensor::goes_before(jobs[i], jobs[k])
                &&& forall|i: int|
                    0 <= i < k && crate::tensor::is_runnable(#[trigger] jobs[i])
                        ==> crate::tensor::goes_before(jobs[k], jobs[i])
            },
            None => forall|i: int| 0 <= i < n ==> !crate::tensor::is_runnable(#[trigger] jobs[i]),
        },
    decreases n,
{
    if n > 0 {
        lemma_first_of(jobs, n - 1);
    }
}

/// The device goes to the highest class that has work, and within it to the
/// nearest deadline; of equals, to whichever was submitted first. It stands idle
/// only when no job has work.
pub proof fn the_most_urgent_job_runs(jobs: Seq<Job>)
    ensures
        match crate::tensor::first_of(jobs, jobs.len() as int) {
            Some(k) => {
                &&& 0 <= k < jobs.len()
                &&& crate::tensor::is_runnable(jobs[k])
                &&& forall|i: int|
                    0 <= i < jobs.len() && crate::tensor::is_runnable(#[trigger] jobs[i])
                        ==> !crate::tensor::goes_before(jobs[i], jobs[k])
                &&& forall|i: int|
                    0 <= i < k && crate::tensor::is_runnable(#[trigger] jobs[i])
                        ==> crate::tensor::goes_before(jobs[k], jobs[i])
            },
            None => forall|i: int|
                0 <= i < jobs.len() ==> !crate::tensor::is_runnable(#[trigger] jobs[i]),
        },
{
    lemma_first_of(jobs, jobs.len() as int);
}

/// Opportunistic work runs only when nothing else wants the device.
pub proof fn opportunistic_work_waits_for_everything_else(jobs: Seq<Job>, i: int)
    requires
        0 <= i < jobs.len(),
        crate::tensor::is_runnable(jobs[i]),
        jobs[i].qos != Qos::Opportunistic,
    ensures
        ({
            let k = crate::tensor::first_of(jobs, jobs.len() as int);
            k is Some && jobs[k->0].qos != Qos::Opportunistic
        }),
{
    lemma_first_of(jobs, jobs.len() as int);
}

/// Work of job `j` that counts against a job of class `qos`.
spec fn weight(j: Job, qos: Qos) -> int {
    if crate::tensor::is_active(j) && crate::tensor::rank_of(j.qos) <= crate::tensor::rank_of(
        qos,
    ) {
        j.segments - j.done_segments
    } else {
        0
    }
}

proof fn lemma_ahead_update(jobs: Seq<Job>, qos: Qos, i: int, j: Job)
    requires
        0 <= i < jobs.len(),
    ensures
        crate::tensor::segments_ahead(jobs.update(i, j), qos) == crate::tensor::segments_ahead(
            jobs,
            qos,
        ) - weight(jobs[i], qos) + weight(j, qos),
    decreases jobs.len(),
{
    let other = jobs.update(i, j);
    if i == jobs.len() - 1 {
        assert(other.drop_last() =~= jobs.drop_last());
    } else {
        assert(other.drop_last() =~= jobs.drop_last().update(i, j));
        lemma_ahead_update(jobs.drop_last(), qos, i, j);
        assert(other.last() == jobs.last());
        assert(jobs.drop_last()[i] == jobs[i]);
    }
}

proof fn lemma_ahead_includes(jobs: Seq<Job>, qos: Qos, i: int)
    requires
        0 <= i < jobs.len(),
        forall|k: int|
            0 <= k < jobs.len() ==> (#[trigger] jobs[k]).done_segments <= jobs[k].segments,
    ensures
        crate::tensor::segments_ahead(jobs, qos) >= weight(jobs[i], qos) >= 0,
        crate::tensor::segments_ahead(jobs, qos) >= 0,
    decreases jobs.len(),
{
    let head = jobs.drop_last();
    assert forall|k: int| 0 <= k < head.len() implies (#[trigger] head[k]).done_segments
        <= head[k].segments by {
        assert(head[k] == jobs[k]);
    }
    assert(jobs.last() == jobs[jobs.len() - 1]);
    if i < jobs.len() - 1 {
        lemma_ahead_includes(head, qos, i);
        assert(head[i] == jobs[i]);
    } else if jobs.len() > 1 {
        lemma_ahead_includes(head, qos, 0);
    } else {
        assert(crate::tensor::segments_ahead(head, qos) == 0);
    }
}

/// Job identifiers are distinct and no job has run more than it has.
pub open spec fn sane(jobs: Seq<Job>) -> bool {
    &&& forall|i: int|
        0 <= i < jobs.len() ==> (#[trigger] jobs[i]).done_segments <= jobs[i].segments
    &&& forall|i: int, k: int|
        0 <= i < k < jobs.len() ==> (#[trigger] jobs[i]).id < (#[trigger] jobs[k]).id
}

proof fn lemma_index_is(jobs: Seq<Job>, i: int, from: int)
    requires
        sane(jobs),
        0 <= from <= i < jobs.len(),
    ensures
        crate::tensor::job_index(jobs, jobs[i].id, from) == Some(i),
    decreases i - from,
{
    if from < i {
        lemma_index_is(jobs, i, from + 1);
    }
}

proof fn lemma_preempted(jobs: Seq<Job>, prev: u64, i: int)
    requires
        0 <= i <= jobs.len(),
    ensures
        crate::tensor::preempted_index(jobs, prev, i) matches Some(p) ==> i <= p < jobs.len()
            && jobs[p].id == prev && jobs[p].done_segments < jobs[p].segments,
    decreases jobs.len() - i,
{
    if i < jobs.len() {
        lemma_preempted(jobs, prev, i + 1);
    }
}

/// One turn of the device: the chosen job gets it, and one of its segments runs
/// for `elapsed` microseconds, ending at `now`.
pub open spec fn turn(jobs: Seq<Job>, last_run: Option<u64>, elapsed: u64, now: u64) -> (
    Seq<Job>,
    Option<u64>,
) {
    match crate::tensor::first_of(jobs, jobs.len() as int) {
        None => (jobs, None),
        Some(i) => {
            let id = jobs[i].id;
            let given = crate::tensor::after_handover(jobs, last_run, id).0;
            let running = given.update(i, Job { state: JobState::Running, ..given[i] });
            (
                match crate::tensor::job_index(running, id, 0) {
                    Some(k) => running.update(
                        k,
                        crate::tensor::after_segment(running[k], elapsed, now),
                    ),
                    None => running,
                },
                Some(id),
            )
        },
    }
}

proof fn lemma_turn(jobs: Seq<Job>, last_run: Option<u64>, elapsed: u64, now: u64, qos: Qos)
    requires
        sane(jobs),
        crate::tensor::first_of(jobs, jobs.len() as int) is Some,
    ensures
        ({
            let i = crate::tensor::first_of(jobs, jobs.len() as int)->0;
            let after = turn(jobs, last_run, elapsed, now).0;
            &&& sane(after)
            &&& after.len() == jobs.len()
            &&& forall|k: int|
                0 <= k < jobs.len() ==> {
                    &&& (#[trigger] after[k]).id == jobs[k].id
                    &&& after[k].qos == jobs[k].qos
                    &&& after[k].segments == jobs[k].segments
                    &&& after[k].deadline_us == jobs[k].deadline_us
                    &&& k != i ==> after[k].state == jobs[k].state && after[k].done_segments
                        == jobs[k].done_segments && after[k].finished_us == jobs[k].finished_us
                }
            &&& after[i].done_segments == jobs[i].done_segments + 1
            &&& after[i].state == if jobs[i].done_segments + 1 >= jobs[i].segments {
                JobState::Done
            } else {
                JobState::Running
            }
            &&& after[i].state == JobState::Done ==> after[i].finished_us == now
            &&& crate::tensor::segments_ahead(after, qos) == crate::tensor::segments_ahead(
                jobs,
                qos,
            ) - if crate::tensor::rank_of(jobs[i].qos) <= crate::tensor::rank_of(qos) {
                1int
            } else {
                0
            }
        }),
{
    lemma_first_of(jobs, jobs.len() as int);
    let i = crate::tensor::first_of(jobs, jobs.len() as int)->0;
    let id = jobs[i].id;
    let given = crate::tensor::after_handover(jobs, last_run, id).0;
    match last_run {
        Some(prev) if prev != id => {
            lemma_preempted(jobs, prev, 0);
            match crate::tensor::preempted_index(jobs, prev, 0) {
                Some(p) => {
                    lemma_ahead_update(jobs, qos, p, given[p]);
                },
                None => {},
            }
        },
        _ => {},
    }
    assert(crate::tensor::segments_ahead(given, qos) == crate::tensor::segments_ahead(jobs, qos));
    let running = given.update(i, Job { state: JobState::Running, ..given[i] });
    lemma_ahead_update(given, qos, i, running[i]);
    assert(sane(running));
    lemma_index_is(running, i, 0);
    let ran = crate::tensor::after_segment(running[i], elapsed, now);
    lemma_ahead_update(running, qos, i, ran);
}

/// Every turn counts towards an admitted job: while it has work, the device only
/// runs jobs of its class or above, so each turn takes one segment off what
/// stands before it — its own work included.
pub proof fn every_turn_brings_a_waiting_job_closer(
    jobs: Seq<Job>,
    last_run: Option<u64>,
    elapsed: u64,
    now: u64,
    k: int,
)
    requires
        sane(jobs),
        0 <= k < jobs.len(),
        crate::tensor::is_runnable(jobs[k]),
    ensures
        crate::tensor::segments_ahead(turn(jobs, last_run, elapsed, now).0, jobs[k].qos)
            == crate::tensor::segments_ahead(jobs, jobs[k].qos) - 1,
{
    lemma_first_of(jobs, jobs.len() as int);
    let i = crate::tensor::first_of(jobs, jobs.len() as int);
    assert(crate::tensor::is_runnable(jobs[k]));
    lemma_turn(jobs, last_run, elapsed, now, jobs[k].qos);
}

/// The device after the turns whose segments took `times`, the first of them
/// starting at `start`.
pub open spec fn turns(jobs: Seq<Job>, last_run: Option<u64>, times: Seq<u64>, start: int) -> (
    Seq<Job>,
    Option<u64>,
    int,
)
    decreases times.len(),
{
    if times.len() == 0 {
        (jobs, last_run, start)
    } else {
        let (j, l, t) = turns(jobs, last_run, times.drop_last(), start);
        let end = t + times.last();
        let (j2, l2) = turn(j, l, times.last(), end as u64);
        (j2, l2, end)
    }
}

proof fn lemma_turns(
    jobs: Seq<Job>,
    last_run: Option<u64>,
    times: Seq<u64>,
    start: int,
    cost: int,
    k: int,
)
    requires
        sane(jobs),
        0 <= k < jobs.len(),
        crate::tensor::is_runnable(jobs[k]),
        0 <= start,
        0 <= cost,
        times.len() <= crate::tensor::segments_ahead(jobs, jobs[k].qos),
        start + crate::tensor::segments_ahead(jobs, jobs[k].qos) * cost <= u64::MAX,
        forall|t: int| 0 <= t < times.len() ==> #[trigger] times[t] <= cost,
    ensures
        ({
            let (j, l, t) = turns(jobs, last_run, times, start);
            &&& sane(j)
            &&& j.len() == jobs.len()
            &&& j[k].qos == jobs[k].qos
            &&& start <= t <= start + times.len() * cost
            &&& if crate::tensor::is_runnable(j[k]) {
                crate::tensor::segments_ahead(j, jobs[k].qos) == crate::tensor::segments_ahead(
                    jobs,
                    jobs[k].qos,
                ) - times.len()
            } else {
                j[k].state == JobState::Done && j[k].finished_us <= start + times.len() * cost
            }
        }),
    decreases times.len(),
{
    if times.len() > 0 {
        let head = times.drop_last();
        assert forall|t: int| 0 <= t < head.len() implies #[trigger] head[t] <= cost by {
            assert(head[t] == times[t]);
        }
        lemma_turns(jobs, last_run, head, start, cost, k);
        let (j, l, t) = turns(jobs, last_run, head, start);
        let e = times.last();
        assert(e == times[times.len() - 1]);
        let end = t + e;
        let all = crate::tensor::segments_ahead(jobs, jobs[k].qos);
        assert(end <= start + times.len() * cost) by (nonlinear_arith)
            requires
                end == t + e,
                t <= start + head.len() * cost,
                head.len() + 1 == times.len(),
                e <= cost,
        ;
        assert(times.len() * cost <= all * cost) by (nonlinear_arith)
            requires
                times.len() <= all,
                cost >= 0,
        ;
        assert(head.len() * cost <= times.len() * cost) by (nonlinear_arith)
            requires
                head.len() + 1 == times.len(),
                cost >= 0,
        ;
        lemma_first_of(j, j.len() as int);
        let first = crate::tensor::first_of(j, j.len() as int);
        if first is Some {
            lemma_turn(j, l, e, end as u64, jobs[k].qos);
            if crate::tensor::is_runnable(j[k]) {
                every_turn_brings_a_waiting_job_closer(j, l, e, end as u64, k);
            }
        }
    }
}

/// Admission is a promise that can be kept: if a job is admitted, nothing more
/// is submitted, and no segment costs more than the estimate it was admitted on,
/// then by the time the device has run everything that stood before it the job
/// is done — within the window it was admitted for.
pub proof fn an_admitted_job_meets_its_deadline(
    jobs: Seq<Job>,
    last_run: Option<u64>,
    times: Seq<u64>,
    start: u64,
    window: u64,
    cost: u64,
    k: int,
)
    requires
        sane(jobs),
        0 <= k < jobs.len(),
        crate::tensor::is_runnable(jobs[k]),
        jobs[k].deadline_us == Some((start + window) as u64),
        start + window <= u64::MAX,
        // What admission checked: everything at this class or above, this job
        // with it, fits the window.
        crate::tensor::segments_ahead(jobs, jobs[k].qos) * cost <= window,
        times.len() == crate::tensor::segments_ahead(jobs, jobs[k].qos),
        forall|t: int| 0 <= t < times.len() ==> #[trigger] times[t] <= cost,
    ensures
        ({
            let j = turns(jobs, last_run, times, start as int).0[k];
            crate::tensor::deadline_met(j) == Some(true)
        }),
{
    let n = crate::tensor::segments_ahead(jobs, jobs[k].qos);
    lemma_turns(jobs, last_run, times, start as int, cost as int, k);
    let (j, l, t) = turns(jobs, last_run, times, start as int);
    if crate::tensor::is_runnable(j[k]) {
        lemma_ahead_includes(j, jobs[k].qos, k);
    }
    lemma_turns_keep_deadline(jobs, last_run, times, start as int, k);
}

proof fn lemma_turns_keep_deadline(
    jobs: Seq<Job>,
    last_run: Option<u64>,
    times: Seq<u64>,
    start: int,
    k: int,
)
    requires
        sane(jobs),
        0 <= k < jobs.len(),
    ensures
        ({
            let j = turns(jobs, last_run, times, start).0;
            sane(j) && j.len() == jobs.len() && j[k].deadline_us == jobs[k].deadline_us
        }),
    decreases times.len(),
{
    if times.len() > 0 {
        lemma_turns_keep_deadline(jobs, last_run, times.drop_last(), start, k);
        let (j, l, t) = turns(jobs, last_run, times.drop_last(), start);
        lemma_first_of(j, j.len() as int);
        if crate::tensor::first_of(j, j.len() as int) is Some {
            lemma_turn(j, l, times.last(), (t + times.last()) as u64, j[k].qos);
        }
    }
}

/// A refused job never runs.
pub proof fn a_refused_job_never_runs(jobs: Seq<Job>, i: int)
    requires
        0 <= i < jobs.len(),
        jobs[i].state == JobState::Refused,
    ensures
        crate::tensor::first_of(jobs, jobs.len() as int) != Some(i),
        crate::tensor::deadline_met(jobs[i]) is None,
{
    lemma_first_of(jobs, jobs.len() as int);
}

// ---- in terms of the jobs themselves ---------------------------------------------------------

/// Whether class `a` may take the device away from class `b`.
pub open spec fn outranks(a: Qos, b: Qos) -> bool {
    match (a, b) {
        (Qos::Interactive, Qos::Foreground) => true,
        (Qos::Interactive, Qos::Background) => true,
        (Qos::Interactive, Qos::Opportunistic) => true,
        (Qos::Foreground, Qos::Background) => true,
        (Qos::Foreground, Qos::Opportunistic) => true,
        (Qos::Background, Qos::Opportunistic) => true,
        _ => false,
    }
}

/// Whether a job was admitted and has a segment left.
pub open spec fn has_work(j: Job) -> bool {
    (j.state == JobState::Queued || j.state == JobState::Running) && j.done_segments < j.segments
}

/// Whether `a` is due no later than `b`; a job without a deadline is as patient as one due
/// at the end of time.
pub open spec fn due_no_later(a: Job, b: Job) -> bool {
    match (a.deadline_us, b.deadline_us) {
        (Some(x), Some(y)) => x <= y,
        (Some(_), None) => true,
        (None, Some(y)) => y == u64::MAX,
        (None, None) => true,
    }
}

/// What is picked has work, no job with work outranks it, and none of its class is due
/// before it; of its class and deadline it was the first to come. Nothing is picked only
/// when no job has work.
pub proof fn the_nearest_deadline_of_the_highest_class_is_picked(jobs: Seq<Job>, i: int)
    requires
        0 <= i < jobs.len(),
        has_work(jobs[i]),
    ensures
        ({
            let k = crate::tensor::first_of(jobs, jobs.len() as int)->0;
            &&& crate::tensor::first_of(jobs, jobs.len() as int) is Some
            &&& 0 <= k < jobs.len()
            &&& has_work(jobs[k])
            &&& !outranks(jobs[i].qos, jobs[k].qos)
            &&& jobs[i].qos == jobs[k].qos ==> due_no_later(jobs[k], jobs[i])
            &&& jobs[i].qos == jobs[k].qos && jobs[i].deadline_us == jobs[k].deadline_us ==> k <= i
        }),
{
    lemma_first_of(jobs, jobs.len() as int);
    assert(crate::tensor::is_runnable(jobs[i]));
}

/// What is picked can be picked, and if nothing is there is nothing to do.
pub proof fn only_work_is_picked(jobs: Seq<Job>)
    ensures
        match crate::tensor::first_of(jobs, jobs.len() as int) {
            Some(k) => 0 <= k < jobs.len() && has_work(jobs[k]),
            None => forall|i: int| 0 <= i < jobs.len() ==> !has_work(#[trigger] jobs[i]),
        },
{
    lemma_first_of(jobs, jobs.len() as int);
    if crate::tensor::first_of(jobs, jobs.len() as int) is None {
        assert forall|i: int| 0 <= i < jobs.len() implies !has_work(#[trigger] jobs[i]) by {
            assert(!crate::tensor::is_runnable(jobs[i]));
        }
    }
}

/// Giving the device to a job marks it as running and changes nothing else of it. Another
/// job is touched only if it had the device, has work left and loses it: then that counts as
/// one preemption, on its record. The job given the device is never the one preempted.
pub proof fn a_preemption_is_charged_to_who_suffers_it(
    jobs: Seq<Job>,
    last_run: Option<u64>,
    p: int,
)
    requires
        sane(jobs),
        0 <= p < jobs.len(),
    ensures
        ({
            let (after, chosen, took) = crate::tensor::given_out(jobs, last_run);
            let loses = chosen is Some && last_run == Some(jobs[p].id) && chosen != last_run
                && jobs[p].done_segments < jobs[p].segments;
            let gets = chosen == Some(jobs[p].id);
            &&& after.len() == jobs.len()
            &&& chosen is Some <==> exists|i: int| 0 <= i < jobs.len() && has_work(#[trigger] jobs[i])
            &&& gets ==> has_work(jobs[p])
            &&& after[p].preemptions == if loses {
                jobs[p].preemptions.wrapping_add(1)
            } else {
                jobs[p].preemptions
            }
            &&& after[p].state == if gets {
                JobState::Running
            } else {
                jobs[p].state
            }
            &&& after[p] == (Job {
                state: after[p].state,
                preemptions: after[p].preemptions,
                ..jobs[p]
            })
            &&& loses ==> took
            &&& took ==> exists|q: int|
                0 <= q < jobs.len() && last_run == Some((#[trigger] jobs[q]).id) && chosen
                    != last_run && jobs[q].done_segments < jobs[q].segments
        }),
{
    only_work_is_picked(jobs);
    match crate::tensor::first_of(jobs, jobs.len() as int) {
        None => {},
        Some(i) => {
            assert(has_work(jobs[i]));
            match last_run {
                Some(prev) if prev != jobs[i].id => {
                    lemma_preempted(jobs, prev, 0);
                    match crate::tensor::preempted_index(jobs, prev, 0) {
                        Some(q) => {
                            assert(last_run == Some(jobs[q].id));
                        },
                        None => {
                            lemma_none_preempted(jobs, prev, 0, p);
                        },
                    }
                },
                _ => {},
            }
        },
    }
}

proof fn lemma_none_preempted(jobs: Seq<Job>, prev: u64, i: int, p: int)
    requires
        0 <= i <= p < jobs.len(),
        crate::tensor::preempted_index(jobs, prev, i) is None,
    ensures
        !(jobs[p].id == prev && jobs[p].done_segments < jobs[p].segments),
    decreases jobs.len() - i,
{
    if i < p {
        lemma_none_preempted(jobs, prev, i + 1, p);
    }
}

/// A segment that ran is charged to its job: one more done, the time it took, and two and a
/// half microjoules for every microsecond. The job is done exactly when that was the last of
/// its segments, and was finished when it ended. Nothing else of it changes.
pub proof fn a_segment_is_charged_to_its_job(j: Job, elapsed: u64, now: u64)
    requires
        j.done_segments < j.segments,
        j.device_us + elapsed <= u64::MAX,
        j.energy_uj + elapsed * 5 / 2 <= u64::MAX,
    ensures
        ({
            let k = crate::tensor::after_segment(j, elapsed, now);
            let last = j.done_segments + 1 == j.segments;
            &&& k.done_segments == j.done_segments + 1
            &&& k.device_us == j.device_us + elapsed
            &&& k.energy_uj == j.energy_uj + elapsed * 5 / 2
            &&& k.state == if last {
                JobState::Done
            } else {
                j.state
            }
            &&& k.finished_us == if last {
                now
            } else {
                j.finished_us
            }
            &&& k == (Job {
                done_segments: k.done_segments,
                device_us: k.device_us,
                energy_uj: k.energy_uj,
                state: k.state,
                finished_us: k.finished_us,
                ..j
            })
        }),
{
    assert(elapsed * 2500 / 1000 == elapsed * 5 / 2);
}

/// The estimate follows what is measured: it moves a quarter of the way, never past it, and
/// stays where it is when it was right.
pub proof fn the_estimate_follows_the_measurements(cost: u64, elapsed: u64)
    ensures
        elapsed == cost ==> crate::tensor::averaged(cost, elapsed) == cost,
        elapsed >= cost ==> cost <= crate::tensor::averaged(cost, elapsed) <= elapsed,
        elapsed <= cost ==> elapsed <= crate::tensor::averaged(cost, elapsed) <= cost,
        4 * crate::tensor::averaged(cost, elapsed) <= 3 * cost + elapsed < 4
            * crate::tensor::averaged(cost, elapsed) + 4,
{
}

/// The segments that a job of a class has to let pass: those left of every admitted job that
/// it does not outrank, added up.
pub open spec fn segments_before(jobs: Seq<Job>, qos: Qos, n: int) -> int
    decreases n,
{
    if n <= 0 {
        0
    } else {
        let j = jobs[n - 1];
        segments_before(jobs, qos, n - 1) + if (j.state == JobState::Queued || j.state
            == JobState::Running) && !outranks(qos, j.qos) {
            j.segments - j.done_segments
        } else {
            0
        }
    }
}

proof fn lemma_ahead_is_before(jobs: Seq<Job>, qos: Qos, n: int)
    requires
        0 <= n <= jobs.len(),
    ensures
        crate::tensor::segments_ahead(jobs.take(n), qos) == segments_before(jobs, qos, n),
    decreases n,
{
    if n > 0 {
        lemma_ahead_is_before(jobs, qos, n - 1);
        assert(jobs.take(n).drop_last() =~= jobs.take(n - 1));
    }
}

/// A job is refused exactly when it has a window and the window is too short for it and
/// everything it does not outrank, at what a segment costs; it is told both numbers. A job
/// without a deadline is always taken, and so is one with nothing before it that fits alone.
pub proof fn work_is_refused_exactly_when_it_does_not_fit(
    jobs: Seq<Job>,
    qos: Qos,
    segments: u32,
    cost: u64,
    window: Option<u64>,
)
    requires
        (segments + segments_before(jobs, qos, jobs.len() as int)) * cost <= u64::MAX,
    ensures
        ({
            let needed = (segments + segments_before(jobs, qos, jobs.len() as int)) * cost;
            let why = crate::tensor::refusal(jobs, qos, segments, cost, window);
            match window {
                None => why is None,
                Some(w) => why == if needed > w {
                    Some(
                        crate::tensor::Reject::Undeliverable {
                            needed_us: needed as u64,
                            available_us: w,
                        },
                    )
                } else {
                    None
                },
            }
        }),
{
    lemma_ahead_is_before(jobs, qos, jobs.len() as int);
    assert(jobs.take(jobs.len() as int) =~= jobs);
}

/// What a submission asked for is what is kept of it, under its own number; it begins with
/// nothing done and nothing charged.
pub proof fn a_submission_is_kept_as_it_was_made(
    id: u64,
    owner: usize,
    qos: Qos,
    segments: u32,
    deadline: Option<u64>,
    now: u64,
    state: JobState,
)
    ensures
        ({
            let j = crate::tensor::new_job(id, owner, qos, segments, deadline, now, state);
            &&& j.id == id && j.owner == owner && j.qos == qos && j.segments == segments
            &&& j.deadline_us == deadline && j.submitted_us == now && j.state == state
            &&& j.done_segments == 0 && j.finished_us == 0 && j.preemptions == 0
            &&& j.energy_uj == 0 && j.device_us == 0
        }),
{
}

/// A job that was admitted and then runs with nothing more submitted and no segment over the
/// estimate meets its deadline; this ties what submission checks to what the deadline law
/// asks for.
pub proof fn admission_leaves_room_for_the_job(
    jobs: Seq<Job>,
    id: u64,
    owner: usize,
    qos: Qos,
    segments: u32,
    cost: u64,
    window: u64,
    now: u64,
)
    requires
        now + window <= u64::MAX,
        crate::tensor::refusal(jobs, qos, segments, cost, Some(window)) is None,
    ensures
        ({
            let j = crate::tensor::new_job(
                id,
                owner,
                qos,
                segments,
                Some((now + window) as u64),
                now,
                JobState::Queued,
            );
            crate::tensor::segments_ahead(jobs.push(j), qos) * cost <= window
        }),
{
    let j = crate::tensor::new_job(
        id,
        owner,
        qos,
        segments,
        Some((now + window) as u64),
        now,
        JobState::Queued,
    );
    assert(jobs.push(j).drop_last() =~= jobs);
}

/// A deadline was met if and only if there was one and the job was finished by it. How long a
/// job has waited is counted from its submission to its end, or to now.
pub proof fn a_deadline_is_judged_by_the_finish(j: Job, now: u64)
    ensures
        crate::tensor::deadline_met(j) == Some(true) <==> j.state == JobState::Done
            && j.deadline_us is Some && j.finished_us <= j.deadline_us->0,
        crate::tensor::deadline_met(j) == Some(false) <==> j.state == JobState::Done
            && j.deadline_us is Some && j.finished_us > j.deadline_us->0,
        j.state == JobState::Done && j.finished_us >= j.submitted_us
            ==> crate::tensor::latency_at(j, now) + j.submitted_us == j.finished_us,
        j.state != JobState::Done && now >= j.submitted_us ==> crate::tensor::latency_at(j, now)
            + j.submitted_us == now,
        crate::tensor::latency_at(j, now) >= 0,
{
}

/// A job is found by its number: the first that has it, or none if none has.
pub proof fn a_job_is_found_by_its_number(jobs: Seq<Job>, id: u64, i: int, k: int)
    requires
        0 <= i <= k < jobs.len(),
    ensures
        match crate::tensor::job_index(jobs, id, i) {
            Some(f) => i <= f < jobs.len() && jobs[f].id == id && (k < f ==> jobs[k].id != id),
            None => jobs[k].id != id,
        },
    decreases jobs.len() - i,
{
    if jobs[i].id != id {
        if k > i {
            a_job_is_found_by_its_number(jobs, id, i + 1, k);
        } else if i + 1 < jobs.len() {
            a_job_is_found_by_its_number(jobs, id, i + 1, i + 1);
        } else {
            assert(crate::tensor::job_index(jobs, id, i + 1) is None);
        }
    }
}

/// Who asks after a job is told when it is over, and how; while it is not, and there is such a
/// job, the asker is blocked until told, and no other thread is touched.
pub proof fn who_asks_after_a_job_is_told_or_waits(
    jobs: Seq<Job>,
    ts: Seq<crate::sched::Thread>,
    ts1: Seq<crate::sched::Thread>,
    current: usize,
    id: u64,
    token: u64,
    r: Option<bool>,
    i: int,
    k: int,
)
    requires
        crate::tensor::looked_up(jobs, ts, ts1, current, id, token, r),
        crate::tensor::job_index(jobs, id, 0) == Some(i),
        0 <= i < jobs.len(),
        current < ts.len(),
        0 <= k < ts.len(),
    ensures
        r == Some(true) <==> jobs[i].state == JobState::Done,
        r == Some(false) <==> jobs[i].state == JobState::Refused,
        ts1.len() == ts.len(),
        ts1[k].state == if r is None && k == current {
            crate::sched::State::Blocked(token)
        } else {
            ts[k].state
        },
{
}

/// Segments are worked through in order: what each computes follows from what the one before
/// did, and from its number.
pub proof fn each_segment_follows_from_the_last(i: nat)
    requires
        i <= u64::MAX,
    ensures
        crate::tensor::segment_value(0) == 0x9E37_79B9_7F4A_7C15,
        ({
            let a = ((crate::tensor::segment_value(i) as int * 6364136223846793005)
                % 0x1_0000_0000_0000_0000 + i) % 0x1_0000_0000_0000_0000;
            crate::tensor::segment_value(i + 1) == a as u64 ^ (a as u64 >> 29)
        }),
{
}

} // verus!
