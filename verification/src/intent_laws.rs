//! What undoing promises.
use vstd::prelude::*;
use crate::fs::{EntryView, Written};
use crate::intent::{Effect, IntentState, IntentView, IntentsView, Operation, StepView};

verus! {

/// The entry that `name` has in a directory.
pub open spec fn entry_of(files: Seq<EntryView>, name: Seq<char>) -> Option<EntryView> {
    match crate::fs::find_from(files, name, 0) {
        Some(i) => Some(files[i]),
        None => None,
    }
}

/// A directory with `name` naming `e`.
pub open spec fn edited(files: Seq<EntryView>, name: Seq<char>, e: EntryView) -> Seq<EntryView> {
    match crate::fs::find_from(files, name, 0) {
        Some(i) => files.update(i, e),
        None => files.push(e),
    }
}

/// What a task did: for each step the file it wrote and the entry it gave it, or
/// `None` for a step that left the device.
pub open spec fn files_after(
    files: Seq<EntryView>,
    history: Seq<Option<(Seq<char>, EntryView)>>,
    k: int,
) -> Seq<EntryView>
    decreases k,
{
    if k <= 0 {
        files
    } else {
        let f = files_after(files, history, k - 1);
        match history[k - 1] {
            Some((name, e)) => edited(f, name, e),
            None => f,
        }
    }
}

/// Whether `steps` is the record of that task: each step recorded before it
/// happened, with what it was about to overwrite.
pub open spec fn recorded(
    files: Seq<EntryView>,
    history: Seq<Option<(Seq<char>, EntryView)>>,
    steps: Seq<StepView>,
) -> bool {
    &&& steps.len() == history.len()
    &&& forall|k: int|
        0 <= k < history.len() ==> match #[trigger] history[k] {
            Some((name, e)) => {
                &&& steps[k].undoable
                &&& steps[k].target == name
                &&& steps[k].before == entry_of(files_after(files, history, k), name)
                &&& crate::fs::field_text(e.name) == name
            },
            None => !steps[k].undoable,
        }
}

/// Putting the old entry back, or removing what was not there, undoes an edit.
proof fn lemma_edit_undone(fs: crate::fs::FsView, files: Seq<EntryView>, name: Seq<char>, e: EntryView)
    requires
        fs.cp.files == edited(files, name, e),
        crate::fs::field_text(e.name) == name,
    ensures
        fs.with_entry(name, entry_of(files, name)) is Some,
        (fs.with_entry(name, entry_of(files, name))->0).cp.files == files,
        !fs.no_room_for(name),
{
    crate::fs::find_from_finds_the_first(files, name, 0);
    let now = fs.cp.files;
    crate::fs::find_from_finds_the_first(now, name, 0);
    let at: int = match crate::fs::find_from(files, name, 0) {
        Some(i) => i,
        None => files.len() as int,
    };
    assert(now[at] == e);
    assert(forall|j: int| 0 <= j < at ==> now[j] == files[j]);
    assert(crate::fs::find_from(now, name, 0) == Some(at));
    assert((fs.with_entry(name, entry_of(files, name))->0).cp.files =~= files);
}

/// How many of the last `n` steps left the device.
pub open spec fn external_among(history: Seq<Option<(Seq<char>, EntryView)>>, n: nat) -> nat
    decreases n,
{
    if n == 0 {
        0
    } else {
        external_among(history, (n - 1) as nat) + if history[history.len() - n] is None {
            1nat
        } else {
            0
        }
    }
}

proof fn lemma_put_back(
    files: Seq<EntryView>,
    history: Seq<Option<(Seq<char>, EntryView)>>,
    steps: Seq<StepView>,
    fs: crate::fs::FsView,
    d: crate::blk::DiskView,
    n: nat,
)
    requires
        recorded(files, history, steps),
        n <= steps.len(),
        fs.cp.files == files_after(files, history, steps.len() as int),
        crate::intent::put_back(fs, d, steps, n).failed is None,
    ensures
        ({
            let r = crate::intent::put_back(fs, d, steps, n);
            &&& r.fs.cp.files == files_after(files, history, steps.len() - n)
            &&& r.refused == external_among(history, n)
            &&& r.reversed == n - external_among(history, n)
        }),
    decreases n,
{
    if n > 0 {
        let m = (n - 1) as nat;
        let so_far = crate::intent::put_back(fs, d, steps, m);
        let k = steps.len() - n;
        reveal(crate::intent::put_one_back);
        lemma_put_back(files, history, steps, fs, d, m);
        match history[k] {
            Some((name, e)) => {
                lemma_edit_undone(so_far.fs, files_after(files, history, k), name, e);
            },
            None => {},
        }
    }
}

/// Undoing a task puts the directory back to what it was before the task,
/// whatever files it wrote, in whatever order, however often; it counts the steps
/// that left the device and cannot be put back.
pub proof fn undoing_a_task_restores_the_directory(
    files: Seq<EntryView>,
    history: Seq<Option<(Seq<char>, EntryView)>>,
    steps: Seq<StepView>,
    fs: crate::fs::FsView,
    d: crate::blk::DiskView,
)
    requires
        recorded(files, history, steps),
        fs.cp.files == files_after(files, history, steps.len() as int),
        crate::intent::put_back(fs, d, steps, steps.len()).failed is None,
    ensures
        ({
            let r = crate::intent::put_back(fs, d, steps, steps.len());
            &&& r.fs.cp.files == files
            &&& r.refused == external_among(history, steps.len())
            &&& r.reversed + r.refused == steps.len()
        }),
{
    lemma_put_back(files, history, steps, fs, d, steps.len());
}

/// Undoing copies nothing: every sector of the log is as it was, so each entry put
/// back stands for the bytes it stood for.
pub proof fn undoing_copies_nothing(
    fs: crate::fs::FsView,
    d: crate::blk::DiskView,
    steps: Seq<StepView>,
    n: nat,
)
    requires
        0 <= fs.slot <= 1,
    ensures
        ({
            let r = crate::intent::put_back(fs, d, steps, n);
            &&& 0 <= r.fs.slot <= 1
            &&& r.fs.cp.log_head == fs.cp.log_head
            &&& r.disk.sectors.len() == d.sectors.len()
            &&& forall|i: int|
                crate::fs::LOG_START <= i < d.sectors.len() ==> #[trigger] r.disk.sectors[i]
                    == d.sectors[i]
        }),
    decreases n,
{
    if n > 0 {
        reveal(crate::intent::put_one_back);
        undoing_copies_nothing(fs, d, steps, (n - 1) as nat);
    }
}

proof fn lemma_intent_found(all: Seq<IntentView>, id: u64, i: int)
    requires
        0 <= i,
    ensures
        match crate::intent::find_intent(all, id, i) {
            Some(k) => i <= k < all.len() && all[k].id == id && forall|j: int|
                i <= j < k ==> (#[trigger] all[j]).id != id,
            None => forall|j: int| i <= j < all.len() ==> (#[trigger] all[j]).id != id,
        },
    decreases all.len() - i,
{
    if i < all.len() && all[i].id != id {
        lemma_intent_found(all, id, i + 1);
    }
}

proof fn lemma_same_ids(a: Seq<IntentView>, b: Seq<IntentView>, id: u64, i: int)
    requires
        a.len() == b.len(),
        0 <= i,
        forall|k: int| 0 <= k < a.len() ==> (#[trigger] a[k]).id == b[k].id,
    ensures
        crate::intent::find_intent(a, id, i) == crate::intent::find_intent(b, id, i),
    decreases a.len() - i,
{
    if i < a.len() {
        assert(a[i].id == b[i].id);
        lemma_same_ids(a, b, id, i + 1);
    }
}

/// An intent is undone once: asking again is refused and changes nothing. One
/// whose undoing failed can be tried again.
pub proof fn an_intent_is_undone_once(
    v: IntentsView,
    id: u64,
    fs: crate::fs::FsView,
    d: crate::blk::DiskView,
    fs2: crate::fs::FsView,
    d2: crate::blk::DiskView,
)
    ensures
        ({
            let (w, _, _, r) = crate::intent::undo_outcome(v, id, fs, d);
            &&& r is Ok ==> crate::intent::undo_outcome(w, id, fs2, d2) == (
                w,
                fs2,
                d2,
                Err::<(usize, usize), &'static str>("already undone"),
            )
            &&& r is Err ==> w == v
        }),
{
    let (w, _, _, r) = crate::intent::undo_outcome(v, id, fs, d);
    if r is Ok {
        lemma_intent_found(v.all, id, 0);
        lemma_same_ids(v.all, w.all, id, 0);
    }
}

/// A task under way: what has been recorded, the filesystem and the device.
#[verifier::ext_equal]
pub struct Task {
    pub intents: IntentsView,
    pub fs: crate::fs::FsView,
    pub disk: crate::blk::DiskView,
}

/// One thing a task does: write a file whole, or something that leaves the device.
#[verifier::ext_equal]
pub enum Deed {
    Write { op: &'static str, name: Seq<char>, data: Seq<u8> },
    External { op: &'static str, target: Seq<char> },
}

/// A task after the first `k` of its deeds, each recorded before it was done.
pub open spec fn after_deeds(t: Task, id: u64, deeds: Seq<Deed>, k: int) -> Task
    decreases k,
{
    if k <= 0 {
        t
    } else {
        let s = after_deeds(t, id, deeds, k - 1);
        match deeds[k - 1] {
            Deed::Write { op, name, data } => {
                let step = StepView {
                    op,
                    target: name,
                    before: entry_of(s.fs.cp.files, name),
                    undoable: true,
                };
                let (fs2, d2, _) = s.fs.write_outcome(s.disk, name, data, None);
                Task {
                    intents: crate::intent::with_step(s.intents, id, step),
                    fs: fs2,
                    disk: d2,
                }
            },
            Deed::External { op, target } => {
                let step = StepView { op, target, before: None, undoable: false };
                Task { intents: crate::intent::with_step(s.intents, id, step), ..s }
            },
        }
    }
}

/// Whether the `k`th deed, if it is a write, is one of a plain name that commits.
pub open spec fn done(t: Task, id: u64, deeds: Seq<Deed>, k: int) -> bool {
    match deeds[k] {
        Deed::Write { name, data, .. } => {
            let s = after_deeds(t, id, deeds, k);
            &&& crate::fs_laws::plain_name(name)
            &&& s.fs.write_outcome(s.disk, name, data, None).2 == Ok::<Written, &'static str>(
                Written::Committed,
            )
        },
        Deed::External { .. } => true,
    }
}

/// What a task's deeds did to the directory.
spec fn history_of(t: Task, id: u64, deeds: Seq<Deed>) -> Seq<Option<(Seq<char>, EntryView)>> {
    Seq::new(
        deeds.len(),
        |k: int|
            match deeds[k] {
                Deed::Write { name, data, .. } => Some(
                    (name, after_deeds(t, id, deeds, k).fs.new_entry(name, data)),
                ),
                Deed::External { .. } => None,
            },
    )
}

/// How many of the first `k` deeds are writes.
pub open spec fn writes_among(deeds: Seq<Deed>, k: int) -> nat
    decreases k,
{
    if k <= 0 {
        0
    } else {
        writes_among(deeds, k - 1) + if deeds[k - 1] is Write {
            1nat
        } else {
            0
        }
    }
}

/// What holds of a task after `k` deeds that all went well.
spec fn on_course(t: Task, id: u64, at: int, deeds: Seq<Deed>, k: int) -> bool {
    let s = after_deeds(t, id, deeds, k);
    let h = history_of(t, id, deeds);
    &&& crate::fs_laws::settled(s.fs, s.disk)
    &&& s.fs.cp.seq <= t.fs.cp.seq + k
    &&& s.fs.cp.log_head >= t.fs.cp.log_head
    &&& s.fs.cp.files == files_after(t.fs.cp.files, h, k)
    &&& s.disk.sectors.len() == t.disk.sectors.len()
    &&& forall|i: int|
        3 <= i < t.fs.cp.log_head && i < t.disk.sectors.len() ==> #[trigger] s.disk.sectors[i]
            == t.disk.sectors[i]
    &&& crate::intent::find_intent(s.intents.all, id, 0) == Some(at)
    &&& 0 <= at < s.intents.all.len()
    &&& s.intents.all[at].state == crate::intent::IntentState::Open
    &&& s.intents.all[at].steps.len() == k
    &&& forall|j: int| 0 <= j < k ==> #[trigger] step_fits(t, h, j, s.intents.all[at].steps[j])
}

/// A step says what the `j`th deed did.
spec fn step_fits(
    t: Task,
    h: Seq<Option<(Seq<char>, EntryView)>>,
    j: int,
    step: StepView,
) -> bool {
    match h[j] {
        Some((name, e)) => {
            &&& step.undoable
            &&& step.target == name
            &&& step.before == entry_of(files_after(t.fs.cp.files, h, j), name)
            &&& crate::fs::field_text(e.name) == name
        },
        None => !step.undoable,
    }
}

/// Writing a file edits the directory and leaves the log so far alone.
proof fn lemma_write_edits(
    fs: crate::fs::FsView,
    d: crate::blk::DiskView,
    name: Seq<char>,
    data: Seq<u8>,
)
    requires
        crate::fs_laws::settled(fs, d),
        fs.cp.seq + 1 < u64::MAX,
        crate::fs_laws::plain_name(name),
        fs.write_outcome(d, name, data, None).2 == Ok::<Written, &'static str>(Written::Committed),
    ensures
        ({
            let (fs2, d2, _) = fs.write_outcome(d, name, data, None);
            &&& crate::fs_laws::settled(fs2, d2)
            &&& fs2.cp.seq == fs.cp.seq + 1
            &&& fs2.cp.log_head >= fs.cp.log_head
            &&& fs2.cp.files == edited(fs.cp.files, name, fs.new_entry(name, data))
            &&& crate::fs::field_text(fs.new_entry(name, data).name) == name
            &&& d2.sectors.len() == d.sectors.len()
            &&& forall|i: int|
                3 <= i < fs.cp.log_head && i < d.sectors.len() ==> #[trigger] d2.sectors[i]
                    == d.sectors[i]
        }),
{
    crate::fs_laws::crash_leaves_old_or_new(fs, d, name, data, None);
    crate::fs_laws::lemma_written_wf(fs, name, data);
    crate::fs_laws::name_field_reads_back(name);
}

proof fn lemma_step_recorded(v: IntentsView, id: u64, at: int, step: StepView)
    requires
        crate::intent::find_intent(v.all, id, 0) == Some(at),
        0 <= at < v.all.len(),
    ensures
        ({
            let w = crate::intent::with_step(v, id, step);
            &&& w.all.len() == v.all.len()
            &&& crate::intent::find_intent(w.all, id, 0) == Some(at)
            &&& w.all[at].state == v.all[at].state
            &&& w.all[at].steps == v.all[at].steps.push(step)
        }),
{
    let w = crate::intent::with_step(v, id, step);
    lemma_same_ids(v.all, w.all, id, 0);
}

proof fn lemma_on_course(t: Task, id: u64, at: int, deeds: Seq<Deed>, k: int)
    requires
        0 <= k <= deeds.len(),
        on_course(t, id, at, deeds, 0),
        t.fs.cp.seq + deeds.len() < u64::MAX,
        forall|j: int| 0 <= j < deeds.len() ==> #[trigger] done(t, id, deeds, j),
    ensures
        on_course(t, id, at, deeds, k),
    decreases k,
{
    if k > 0 {
        lemma_on_course(t, id, at, deeds, k - 1);
        let h = history_of(t, id, deeds);
        let s = after_deeds(t, id, deeds, k - 1);
        let n = after_deeds(t, id, deeds, k);
        assert(done(t, id, deeds, k - 1));
        let step = match deeds[k - 1] {
            Deed::Write { op, name, data } => {
                lemma_write_edits(s.fs, s.disk, name, data);
                StepView {
                    op,
                    target: name,
                    before: entry_of(s.fs.cp.files, name),
                    undoable: true,
                }
            },
            Deed::External { op, target } => StepView {
                op,
                target,
                before: None,
                undoable: false,
            },
        };
        lemma_step_recorded(s.intents, id, at, step);
        assert(n.intents == crate::intent::with_step(s.intents, id, step));
        assert forall|j: int| 0 <= j < k implies #[trigger] step_fits(
            t,
            h,
            j,
            n.intents.all[at].steps[j],
        ) by {
            if j < k - 1 {
                assert(step_fits(t, h, j, s.intents.all[at].steps[j]));
            }
        }
        assert forall|i: int|
            3 <= i < t.fs.cp.log_head && i < t.disk.sectors.len() implies #[trigger] n.disk.sectors[i]
            == t.disk.sectors[i] by {
            assert(s.disk.sectors[i] == t.disk.sectors[i]);
        }
    }
}

proof fn lemma_external_count(t: Task, id: u64, deeds: Seq<Deed>, n: nat)
    requires
        n <= deeds.len(),
    ensures
        n - external_among(history_of(t, id, deeds), n) == writes_among(
            deeds,
            deeds.len() as int,
        ) - writes_among(deeds, deeds.len() - n),
    decreases n,
{
    if n > 0 {
        lemma_external_count(t, id, deeds, (n - 1) as nat);
    }
}

/// A whole task can be taken back: begin an intent, record and do any number of things,
/// each write of them committed, and undo it. The directory is what it was when the task
/// began, every file in it stands for the bytes it stood for, and the count says how many
/// writes were reversed and how much left the device.
pub proof fn a_task_is_undone_whole(
    v: IntentsView,
    goal: &'static str,
    actor: &'static str,
    cap: u64,
    fs: crate::fs::FsView,
    d: crate::blk::DiskView,
    deeds: Seq<Deed>,
)
    requires
        v.next_id < u64::MAX,
        forall|i: int| 0 <= i < v.all.len() ==> (#[trigger] v.all[i]).id != v.next_id,
        crate::fs_laws::settled(fs, d),
        fs.cp.seq + deeds.len() < u64::MAX,
        fs.cp.log_head <= d.sectors.len(),
        ({
            let id = v.next_id;
            let t = Task { intents: crate::intent::begun(v, goal, actor, cap), fs, disk: d };
            let s = after_deeds(t, id, deeds, deeds.len() as int);
            &&& forall|j: int| 0 <= j < deeds.len() ==> #[trigger] done(t, id, deeds, j)
            &&& crate::intent::undo_outcome(s.intents, id, s.fs, s.disk).3 is Ok
        }),
    ensures
        ({
            let id = v.next_id;
            let t = Task { intents: crate::intent::begun(v, goal, actor, cap), fs, disk: d };
            let n = deeds.len() as int;
            let s = after_deeds(t, id, deeds, n);
            let (w, fs2, d2, r) = crate::intent::undo_outcome(s.intents, id, s.fs, s.disk);
            &&& fs2.cp.files == fs.cp.files
            &&& forall|i: int|
                0 <= i < fs.cp.files.len() && crate::fs_laws::in_log(
                    fs,
                    #[trigger] fs.cp.files[i],
                ) ==> crate::fs::contents(d2.sectors, fs.cp.files[i]) == crate::fs::contents(
                    d.sectors,
                    fs.cp.files[i],
                )
            &&& r == Ok::<(usize, usize), &'static str>(
                (
                    writes_among(deeds, n) as usize,
                    (n - writes_among(deeds, n)) as usize,
                ),
            )
        }),
{
    let id = v.next_id;
    let t = Task { intents: crate::intent::begun(v, goal, actor, cap), fs, disk: d };
    let at = v.all.len() as int;
    lemma_begun(v, goal, actor, cap);
    assert(on_course(t, id, at, deeds, 0));
    lemma_undone(t, id, at, deeds);
}

proof fn lemma_begun(v: IntentsView, goal: &'static str, actor: &'static str, cap: u64)
    requires
        forall|i: int| 0 <= i < v.all.len() ==> (#[trigger] v.all[i]).id != v.next_id,
    ensures
        crate::intent::find_intent(
            crate::intent::begun(v, goal, actor, cap).all,
            v.next_id,
            0,
        ) == Some(v.all.len() as int),
{
    let all = crate::intent::begun(v, goal, actor, cap).all;
    let at = v.all.len() as int;
    lemma_intent_found(all, v.next_id, 0);
    assert(all[at].id == v.next_id);
    match crate::intent::find_intent(all, v.next_id, 0) {
        Some(k) => {
            if k < at {
                assert(all[k] == v.all[k]);
            }
        },
        None => {},
    }
}

#[verifier::rlimit(30)]
proof fn lemma_undone(t: Task, id: u64, at: int, deeds: Seq<Deed>)
    requires
        on_course(t, id, at, deeds, 0),
        t.fs.cp.seq + deeds.len() < u64::MAX,
        t.fs.cp.log_head <= t.disk.sectors.len(),
        forall|j: int| 0 <= j < deeds.len() ==> #[trigger] done(t, id, deeds, j),
        ({
            let s = after_deeds(t, id, deeds, deeds.len() as int);
            crate::intent::undo_outcome(s.intents, id, s.fs, s.disk).3 is Ok
        }),
    ensures
        ({
            let n = deeds.len() as int;
            let s = after_deeds(t, id, deeds, n);
            let (w, fs2, d2, r) = crate::intent::undo_outcome(s.intents, id, s.fs, s.disk);
            &&& fs2.cp.files == t.fs.cp.files
            &&& forall|i: int|
                0 <= i < t.fs.cp.files.len() && crate::fs_laws::in_log(
                    t.fs,
                    #[trigger] t.fs.cp.files[i],
                ) ==> crate::fs::contents(d2.sectors, t.fs.cp.files[i]) == crate::fs::contents(
                    t.disk.sectors,
                    t.fs.cp.files[i],
                )
            &&& r == Ok::<(usize, usize), &'static str>(
                (
                    writes_among(deeds, n) as usize,
                    (n - writes_among(deeds, n)) as usize,
                ),
            )
        }),
{
    let n = deeds.len() as int;
    let s = after_deeds(t, id, deeds, n);
    let h = history_of(t, id, deeds);
    lemma_on_course(t, id, at, deeds, n);
    let steps = s.intents.all[at].steps;
    lemma_recorded(t, h, steps);
    let back = crate::intent::put_back(s.fs, s.disk, steps, steps.len());
    assert(back.failed is None);
    undoing_a_task_restores_the_directory(t.fs.cp.files, h, steps, s.fs, s.disk);
    undoing_copies_nothing(s.fs, s.disk, steps, steps.len());
    lemma_external_count(t, id, deeds, deeds.len());
    assert forall|i: int|
        0 <= i < t.fs.cp.files.len() && crate::fs_laws::in_log(
            t.fs,
            #[trigger] t.fs.cp.files[i],
        ) implies crate::fs::contents(back.disk.sectors, t.fs.cp.files[i]) == crate::fs::contents(
        t.disk.sectors,
        t.fs.cp.files[i],
    ) by {
        lemma_contents_kept(t.disk.sectors, back.disk.sectors, t.fs, t.fs.cp.files[i]);
    }
}

proof fn lemma_recorded(t: Task, h: Seq<Option<(Seq<char>, EntryView)>>, steps: Seq<StepView>)
    requires
        steps.len() == h.len(),
        forall|j: int| 0 <= j < h.len() ==> #[trigger] step_fits(t, h, j, steps[j]),
    ensures
        recorded(t.fs.cp.files, h, steps),
{
    assert forall|k: int| 0 <= k < h.len() implies match #[trigger] h[k] {
        Some((name, e)) => {
            &&& steps[k].undoable
            &&& steps[k].target == name
            &&& steps[k].before == entry_of(files_after(t.fs.cp.files, h, k), name)
            &&& crate::fs::field_text(e.name) == name
        },
        None => !steps[k].undoable,
    } by {
        assert(step_fits(t, h, k, steps[k]));
    }
}

/// What an entry in the written part of the log stands for depends on the log alone.
proof fn lemma_contents_kept(
    s: Seq<Seq<u8>>,
    t: Seq<Seq<u8>>,
    fs: crate::fs::FsView,
    e: EntryView,
)
    requires
        crate::fs_laws::in_log(fs, e),
        fs.cp.log_head <= s.len(),
        s.len() == t.len(),
        forall|i: int|
            crate::fs::LOG_START <= i < fs.cp.log_head && i < s.len() ==> #[trigger] t[i] == s[i],
    ensures
        crate::fs::contents(t, e) == crate::fs::contents(s, e),
{
    assert forall|i: int| 0 <= i < e.size implies crate::fs::contents(t, e)[i]
        == crate::fs::contents(s, e)[i] by {
        let k = e.start + i / 512;
        assert(crate::fs::LOG_START <= k < fs.cp.log_head);
        assert(t[k] == s[k]);
    }
    assert(crate::fs::contents(t, e) =~= crate::fs::contents(s, e));
}

// ---- choosing operations --------------------------------------------------------------------

/// An operation is found under its name: the first that was published so, or none if none was.
pub proof fn an_operation_is_found_under_its_name(
    ops: Seq<Operation>,
    name: Seq<char>,
    i: int,
    k: int,
)
    requires
        0 <= i <= k < ops.len(),
    ensures
        match crate::intent::named(ops, name, i) {
            Some(op) => op.name@ == name && exists|f: int|
                i <= f < ops.len() && op == #[trigger] ops[f] && (k < f ==> ops[k].name@ != name),
            None => ops[k].name@ != name,
        },
    decreases ops.len() - i,
{
    if ops[i].name@ == name {
        assert(crate::intent::named(ops, name, i) == Some(ops[i]));
        assert(i <= i < ops.len());
    } else if k > i {
        an_operation_is_found_under_its_name(ops, name, i + 1, k);
    } else if i + 1 < ops.len() {
        an_operation_is_found_under_its_name(ops, name, i + 1, i + 1);
        if crate::intent::named(ops, name, i + 1) is Some {
            let op = crate::intent::named(ops, name, i + 1)->0;
            let f = choose|f: int|
                i + 1 <= f < ops.len() && op == #[trigger] ops[f] && (i + 1 < f ==> ops[i
                    + 1].name@ != name);
            assert(i <= f < ops.len() && op == ops[f]);
        }
    } else {
        assert(crate::intent::named(ops, name, i + 1) is None);
    }
}

/// An effect is had from the first operation published with it.
pub proof fn an_effect_is_had_from_the_first_that_has_it(
    ops: Seq<Operation>,
    effect: Effect,
    i: int,
    k: int,
)
    requires
        0 <= i <= k < ops.len(),
    ensures
        match crate::intent::first_with(ops, effect, i) {
            Some(op) => op.effect == effect && exists|f: int|
                i <= f < ops.len() && op == #[trigger] ops[f] && (k < f ==> ops[k].effect
                    != effect),
            None => ops[k].effect != effect,
        },
    decreases ops.len() - i,
{
    if ops[i].effect == effect {
        assert(crate::intent::first_with(ops, effect, i) == Some(ops[i]));
        assert(i <= i < ops.len());
    } else if k > i {
        an_effect_is_had_from_the_first_that_has_it(ops, effect, i + 1, k);
    } else if i + 1 < ops.len() {
        an_effect_is_had_from_the_first_that_has_it(ops, effect, i + 1, i + 1);
        if crate::intent::first_with(ops, effect, i + 1) is Some {
            let op = crate::intent::first_with(ops, effect, i + 1)->0;
            let f = choose|f: int|
                i + 1 <= f < ops.len() && op == #[trigger] ops[f] && (i + 1 < f ==> ops[i
                    + 1].effect != effect);
            assert(i <= f < ops.len() && op == ops[f]);
        }
    } else {
        assert(crate::intent::first_with(ops, effect, i + 1) is None);
    }
}

/// A plan takes the effects wanted one after the other: for each it gains the operation that
/// effect is had from, if there is one and there is still room; what was chosen before stays.
/// Where every effect can be had and there is room, the plan has one operation for each, in the
/// order wanted.
pub proof fn a_plan_follows_what_is_wanted(
    ops: Seq<Operation>,
    wanted: Seq<Effect>,
    k: int,
    room: nat,
)
    requires
        0 <= k < wanted.len(),
    ensures
        crate::intent::planned(ops, wanted, 0, room).len() == 0,
        ({
            let before = crate::intent::planned(ops, wanted, k, room);
            let after = crate::intent::planned(ops, wanted, k + 1, room);
            let op = crate::intent::first_with(ops, wanted[k], 0);
            &&& before.len() <= room
            &&& before.len() <= k
            &&& after == if op is Some && before.len() < room {
                before + seq![op->0]
            } else {
                before
            }
        }),
    decreases k,
{
    if k > 0 {
        a_plan_follows_what_is_wanted(ops, wanted, k - 1, room);
    }
    let before = crate::intent::planned(ops, wanted, k, room);
    let op = crate::intent::first_with(ops, wanted[k], 0);
    if op is Some {
        assert(before.push(op->0) =~= before + seq![op->0]);
    }
}

// ---- keeping intents ------------------------------------------------------------------------

/// An intent is found by its number.
pub proof fn an_intent_is_found_by_its_number(all: Seq<IntentView>, id: u64, i: int, k: int)
    requires
        0 <= i <= k < all.len(),
    ensures
        match crate::intent::find_intent(all, id, i) {
            Some(f) => i <= f < all.len() && all[f].id == id && (k < f ==> all[k].id != id),
            None => all[k].id != id,
        },
    decreases all.len() - i,
{
    if all[i].id != id {
        if k > i {
            an_intent_is_found_by_its_number(all, id, i + 1, k);
        } else if i + 1 < all.len() {
            an_intent_is_found_by_its_number(all, id, i + 1, i + 1);
        } else {
            assert(crate::intent::find_intent(all, id, i + 1) is None);
        }
    }
}

/// A new intent is open, has done nothing, and says what was asked, by whom and under which
/// capability; its number is its own, and the intents before it stay as they are.
pub proof fn an_intent_begins_open_and_empty(
    v: IntentsView,
    goal: &'static str,
    actor: &'static str,
    cap: u64,
    k: int,
)
    requires
        v.next_id < u64::MAX,
        0 <= k < v.all.len(),
        v.all[k].id < v.next_id,
    ensures
        ({
            let w = crate::intent::begun(v, goal, actor, cap);
            let n = w.all.last();
            &&& w.all.len() == v.all.len() + 1
            &&& w.all[k] == v.all[k]
            &&& n.id == v.next_id && n.id != v.all[k].id
            &&& n.goal == goal && n.actor == actor && n.cap == cap
            &&& n.steps.len() == 0 && n.state == IntentState::Open
            &&& w.next_id == v.next_id + 1
        }),
{
}

/// Recording a step adds it behind the others of its intent, and committing marks its intent;
/// nothing else of it changes, and no other intent does.
pub proof fn an_intent_changes_alone(v: IntentsView, id: u64, step: StepView, f: int, k: int)
    requires
        crate::intent::find_intent(v.all, id, 0) == Some(f),
        0 <= f < v.all.len(),
        0 <= k < v.all.len(),
    ensures
        ({
            let r = crate::intent::with_step(v, id, step);
            let c = crate::intent::committed(v, id);
            let it = v.all[f];
            &&& r.all.len() == v.all.len() && c.all.len() == v.all.len()
            &&& r.next_id == v.next_id && c.next_id == v.next_id
            &&& k != f ==> r.all[k] == v.all[k] && c.all[k] == v.all[k]
            &&& r.all[f].steps == it.steps + seq![step] && r.all[f].state == it.state
            &&& c.all[f].steps == it.steps && c.all[f].state == IntentState::Committed
            &&& r.all[f].id == it.id && r.all[f].goal == it.goal && r.all[f].actor == it.actor
                && r.all[f].cap == it.cap
            &&& c.all[f].id == it.id && c.all[f].goal == it.goal && c.all[f].actor == it.actor
                && c.all[f].cap == it.cap
        }),
{
    assert(v.all[f].steps.push(step) =~= v.all[f].steps + seq![step]);
}

/// Steps are put back newest first: the last step is the first that is touched, and each is
/// touched at most once.
pub proof fn the_newest_step_goes_back_first(
    fs: crate::fs::FsView,
    d: crate::blk::DiskView,
    steps: Seq<StepView>,
    n: nat,
)
    requires
        n < steps.len(),
    ensures
        ({
            let before = crate::intent::put_back(fs, d, steps, n);
            let after = crate::intent::put_back(fs, d, steps, n + 1);
            let s = steps[steps.len() - 1 - n];
            let (fs2, d2, r) = before.fs.set_entry_outcome(before.disk, s.target, s.before);
            &&& n == 0 ==> before.fs == fs && before.disk == d && before.reversed == 0
                && before.refused == 0 && before.failed is None
            &&& before.failed is Some ==> after == before
            &&& before.failed is None && !s.undoable ==> after.fs == before.fs && after.disk
                == before.disk && after.refused == before.refused + 1 && after.reversed
                == before.reversed && after.failed is None
            &&& before.failed is None && s.undoable ==> after.fs == fs2 && after.disk == d2
                && after.refused == before.refused && (after.failed is None <==> r is Ok)
                && after.reversed == before.reversed + if r is Ok {
                1int
            } else {
                0
            }
        }),
{
    reveal(crate::intent::put_one_back);
}

} // verus!
