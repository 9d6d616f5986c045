//! Typed operations and transactional intents.
//!
//! **Applications publish operations, not screens.** An operation says what it is
//! called, what it takes, what it changes, and whether a person should be asked
//! first. An agent composes over that registry.
//!
//! **Every mutating step is recorded before it happens.** An intent groups the
//! steps of a task and keeps what each one is about to overwrite, so the whole
//! thing can be put back.
//!
//! Undo is nearly free because the filesystem never overwrites: putting the old
//! directory entry back restores the old contents without copying anything.
use vstd::prelude::*;
use crate::blk::Disk;
use crate::bytes::same_text;
use crate::fs::{FileEntry, Fs};

verus! {

/// What an operation does to the world.
#[derive(Clone, Copy, PartialEq, Eq, Debug, Structural)]
pub enum Effect {
    /// Reads. Always safe to retry, never needs undoing.
    ReadOnly,
    /// Changes something the system can put back.
    Mutates,
    /// Leaves the device — sends, posts, pays. Cannot be undone, only regretted,
    /// which is why it is a separate kind rather than a flag.
    External,
}

impl Effect {
    pub fn label(&self) -> (s: &'static str)
        ensures
            s == (match *self {
                Effect::ReadOnly => "read-only",
                Effect::Mutates => "mutates",
                Effect::External => "external",
            }),
    {
        match self {
            Effect::ReadOnly => "read-only",
            Effect::Mutates => "mutates",
            Effect::External => "external",
        }
    }
}

#[derive(Clone, Copy)]
pub struct Operation {
    pub name: &'static str,
    pub provider: &'static str,
    pub args: &'static str,
    pub effect: Effect,
    /// Whether a person should be asked before this runs.
    pub confirm: bool,
}

/// What applications offer.
pub struct Registry {
    pub ops: Vec<Operation>,
}

/// The first operation at or after the `i`th with this name.
pub open spec fn named(ops: Seq<Operation>, name: Seq<char>, i: int) -> Option<Operation>
    decreases ops.len() - i,
{
    if i >= ops.len() {
        None
    } else if ops[i].name@ == name {
        Some(ops[i])
    } else {
        named(ops, name, i + 1)
    }
}

/// The first operation at or after the `i`th with this effect.
pub open spec fn first_with(ops: Seq<Operation>, effect: Effect, i: int) -> Option<Operation>
    decreases ops.len() - i,
{
    if i >= ops.len() {
        None
    } else if ops[i].effect == effect {
        Some(ops[i])
    } else {
        first_with(ops, effect, i + 1)
    }
}

/// What is chosen for the first `k` of the effects wanted, in order, while there
/// is room.
pub open spec fn planned(ops: Seq<Operation>, wanted: Seq<Effect>, k: int, room: nat) -> Seq<
    Operation,
>
    decreases k,
{
    if k <= 0 {
        Seq::empty()
    } else {
        let p = planned(ops, wanted, k - 1, room);
        if p.len() >= room {
            p
        } else {
            match first_with(ops, wanted[k - 1], 0) {
                Some(op) => p.push(op),
                None => p,
            }
        }
    }
}

impl Registry {
    pub fn new() -> (r: Registry)
        ensures
            r.ops@ == Seq::<Operation>::empty(),
    {
        Registry { ops: Vec::new() }
    }
}

/// Publish an operation. An application's whole interface to an agent.
pub fn publish(reg: &mut Registry, op: Operation)
    ensures
        final(reg).ops@ == old(reg).ops@.push(op),
{
    reg.ops.push(op);
}

pub fn find(reg: &Registry, name: &str) -> (r: Option<Operation>)
    ensures
        r == named(reg.ops@, name@, 0),
{
    let mut i: usize = 0;
    while i < reg.ops.len()
        invariant
            i <= reg.ops@.len(),
            named(reg.ops@, name@, 0) == named(reg.ops@, name@, i as int),
        decreases reg.ops@.len() - i,
    {
        if same_text(reg.ops[i].name, name) {
            return Some(reg.ops[i]);
        }
        i = i + 1;
    }
    None
}

/// Hand every operation to `f`, in the order they were published.
pub fn for_each_operation<F: Fn(&Operation)>(reg: &Registry, f: F)
    requires
        forall|i: int|
            0 <= i < reg.ops@.len() ==> call_requires(f, (&#[trigger] reg.ops@[i],)),
    ensures
        forall|i: int|
            0 <= i < reg.ops@.len() ==> call_ensures(f, (&#[trigger] reg.ops@[i],), ()),
{
    let mut i: usize = 0;
    while i < reg.ops.len()
        invariant
            i <= reg.ops@.len(),
            forall|k: int|
                0 <= k < reg.ops@.len() ==> call_requires(f, (&#[trigger] reg.ops@[k],)),
            forall|k: int| 0 <= k < i ==> call_ensures(f, (&#[trigger] reg.ops@[k],), ()),
        decreases reg.ops@.len() - i,
    {
        f(&reg.ops[i]);
        i = i + 1;
    }
}

fn find_effect(reg: &Registry, effect: Effect) -> (r: Option<Operation>)
    ensures
        r == first_with(reg.ops@, effect, 0),
{
    let mut i: usize = 0;
    while i < reg.ops.len()
        invariant
            i <= reg.ops@.len(),
            first_with(reg.ops@, effect, 0) == first_with(reg.ops@, effect, i as int),
        decreases reg.ops@.len() - i,
    {
        if reg.ops[i].effect == effect {
            return Some(reg.ops[i]);
        }
        i = i + 1;
    }
    None
}

proof fn lemma_full_plan_stays(ops: Seq<Operation>, wanted: Seq<Effect>, k: int, n: int, room: nat)
    requires
        0 <= k <= n,
        planned(ops, wanted, k, room).len() >= room,
    ensures
        planned(ops, wanted, n, room) == planned(ops, wanted, k, room),
    decreases n - k,
{
    if k < n {
        lemma_full_plan_stays(ops, wanted, k, n - 1, room);
    }
}

/// Choose operations for a goal, by the effects it needs.
///
/// It picks the first published operation with each required effect: the agent
/// composes over what applications *declare*, so adding an application adds a
/// capability without anyone rewriting the agent.
pub fn plan(reg: &Registry, wanted: &[Effect], out: &mut [Operation]) -> (n: usize)
    ensures
        ({
            let p = planned(reg.ops@, wanted@, wanted@.len() as int, old(out)@.len());
            &&& n == p.len()
            &&& n <= old(out)@.len()
            &&& final(out)@ == p + old(out)@.skip(n as int)
        }),
{
    let ghost out0 = out@;
    let mut n: usize = 0;
    let mut k: usize = 0;
    let len: usize = out.len();
    assert(out@ =~= Seq::<Operation>::empty() + out0.skip(0));
    while k < wanted.len() && n < len
        invariant
            k <= wanted@.len(),
            n <= len,
            len == out0.len(),
            len == out@.len(),
            out0 == old(out)@,
            n == planned(reg.ops@, wanted@, k as int, out0.len()).len(),
            out@ == planned(reg.ops@, wanted@, k as int, out0.len()) + out0.skip(n as int),
        decreases wanted@.len() - k,
    {
        let ghost p = planned(reg.ops@, wanted@, k as int, out0.len());
        match find_effect(reg, wanted[k]) {
            Some(op) => {
                out[n] = op;
                n = n + 1;
                assert(out@ =~= p.push(op) + out0.skip(n as int));
            },
            None => {},
        }
        k = k + 1;
    }
    proof {
        if k < wanted@.len() {
            lemma_full_plan_stays(
                reg.ops@,
                wanted@,
                k as int,
                wanted@.len() as int,
                out0.len(),
            );
        }
    }
    n
}

// ---- intents ------------------------------------------------------------------------

#[derive(Clone, Copy, PartialEq, Eq, Debug, Structural)]
pub enum IntentState {
    Open,
    Committed,
    Undone,
}

/// One thing an intent did, and what it needs to put it back.
pub struct Step {
    pub op: &'static str,
    pub target: String,
    /// The directory entry as it was before this step. `None` means the file did
    /// not exist, so undoing means removing it.
    pub before: Option<FileEntry>,
    pub undoable: bool,
}

#[verifier::ext_equal]
pub struct StepView {
    pub op: &'static str,
    pub target: Seq<char>,
    pub before: Option<crate::fs::EntryView>,
    pub undoable: bool,
}

/// An entry as a mathematical value, where there is one.
pub open spec fn entry_view(e: Option<FileEntry>) -> Option<crate::fs::EntryView> {
    match e {
        Some(e) => Some(e@),
        None => None,
    }
}

impl View for Step {
    type V = StepView;

    open spec fn view(&self) -> StepView {
        StepView {
            op: self.op,
            target: self.target@,
            before: entry_view(self.before),
            undoable: self.undoable,
        }
    }
}

pub struct Intent {
    pub id: u64,
    pub goal: &'static str,
    pub actor: &'static str,
    /// The capability the whole intent was carried out under, so a reader can
    /// follow it back to whoever authorised it.
    pub cap: u64,
    pub steps: Vec<Step>,
    pub state: IntentState,
}

#[verifier::ext_equal]
pub struct IntentView {
    pub id: u64,
    pub goal: &'static str,
    pub actor: &'static str,
    pub cap: u64,
    pub steps: Seq<StepView>,
    pub state: IntentState,
}

impl View for Intent {
    type V = IntentView;

    open spec fn view(&self) -> IntentView {
        IntentView {
            id: self.id,
            goal: self.goal,
            actor: self.actor,
            cap: self.cap,
            steps: self.steps@.map_values(|s: Step| s@),
            state: self.state,
        }
    }
}

pub struct Intents {
    pub all: Vec<Intent>,
    pub next_id: u64,
}

#[verifier::ext_equal]
pub struct IntentsView {
    pub all: Seq<IntentView>,
    pub next_id: u64,
}

impl View for Intents {
    type V = IntentsView;

    open spec fn view(&self) -> IntentsView {
        IntentsView { all: self.all@.map_values(|i: Intent| i@), next_id: self.next_id }
    }
}

/// The first intent at or after the `i`th with this number.
pub open spec fn find_intent(all: Seq<IntentView>, id: u64, i: int) -> Option<int>
    decreases all.len() - i,
{
    if i >= all.len() {
        None
    } else if all[i].id == id {
        Some(i)
    } else {
        find_intent(all, id, i + 1)
    }
}

impl IntentsView {
    pub open spec fn with(self, i: int, n: IntentView) -> IntentsView {
        IntentsView { all: self.all.update(i, n), ..self }
    }
}

impl Intents {
    pub fn new() -> (r: Intents)
        ensures
            r@ == (IntentsView { all: Seq::empty(), next_id: 1 }),
    {
        let r = Intents { all: Vec::new(), next_id: 1 };
        assert(r@.all =~= Seq::empty());
        r
    }

    fn index_of(&self, id: u64) -> (r: Option<usize>)
        ensures
            match r {
                Some(i) => i < self.all@.len() && find_intent(self@.all, id, 0) == Some(i as int),
                None => find_intent(self@.all, id, 0) is None,
            },
    {
        let mut i: usize = 0;
        while i < self.all.len()
            invariant
                i <= self.all@.len(),
                find_intent(self@.all, id, 0) == find_intent(self@.all, id, i as int),
            decreases self.all@.len() - i,
        {
            assert(self@.all[i as int] == self.all@[i as int]@);
            if self.all[i].id == id {
                return Some(i);
            }
            i = i + 1;
        }
        None
    }
}

/// The intents with a new one begun.
pub open spec fn begun(
    v: IntentsView,
    goal: &'static str,
    actor: &'static str,
    cap: u64,
) -> IntentsView {
    IntentsView {
        all: v.all.push(
            IntentView {
                id: v.next_id,
                goal,
                actor,
                cap,
                steps: Seq::empty(),
                state: IntentState::Open,
            },
        ),
        next_id: (v.next_id + 1) as u64,
    }
}

/// The intents with a step recorded in one of them, if it is there.
pub open spec fn with_step(v: IntentsView, id: u64, step: StepView) -> IntentsView {
    match find_intent(v.all, id, 0) {
        Some(i) => v.with(i, IntentView { steps: v.all[i].steps.push(step), ..v.all[i] }),
        None => v,
    }
}

pub fn begin(s: &mut Intents, goal: &'static str, actor: &'static str, cap: u64) -> (id: u64)
    requires
        old(s).next_id < u64::MAX,
    ensures
        id == old(s)@.next_id,
        final(s)@ == begun(old(s)@, goal, actor, cap),
{
    let ghost v0 = s@;
    let id = s.next_id;
    s.next_id = s.next_id + 1;
    s.all.push(Intent { id, goal, actor, cap, steps: Vec::new(), state: IntentState::Open });
    proof {
        let n = IntentView {
            id,
            goal,
            actor,
            cap,
            steps: Seq::empty(),
            state: IntentState::Open,
        };
        assert(s.all@.last()@ =~= n);
        assert(s@.all =~= v0.all.push(n));
    }
    id
}

/// Record a step *before* performing it.
///
/// Before, not after: a step recorded after the fact is a step that cannot be
/// undone if the machine stops in between.
pub fn record(
    s: &mut Intents,
    id: u64,
    op: &'static str,
    target: &str,
    before: Option<FileEntry>,
    undoable: bool,
)
    ensures
        final(s)@ == with_step(
            old(s)@,
            id,
            StepView { op, target: target@, before: entry_view(before), undoable },
        ),
{
    let ghost v0 = s@;
    match s.index_of(id) {
        None => {},
        Some(i) => {
            assert(v0.all[i as int] == s.all@[i as int]@);
            let step = Step { op, target: target.to_owned(), before, undoable };
            s.all[i].steps.push(step);
            proof {
                let n = IntentView {
                    steps: v0.all[i as int].steps.push(step@),
                    ..v0.all[i as int]
                };
                assert(s.all@[i as int]@.steps =~= n.steps);
                assert(s.all@[i as int]@ =~= n);
                assert(s@.all =~= v0.all.update(i as int, n));
            }
        },
    }
}

/// The intents with one of them committed, if it is there.
pub open spec fn committed(v: IntentsView, id: u64) -> IntentsView {
    match find_intent(v.all, id, 0) {
        Some(i) => v.with(i, IntentView { state: IntentState::Committed, ..v.all[i] }),
        None => v,
    }
}

pub fn commit(s: &mut Intents, id: u64)
    ensures
        final(s)@ == committed(old(s)@, id),
{
    let ghost v0 = s@;
    match s.index_of(id) {
        None => {},
        Some(i) => {
            assert(v0.all[i as int] == s.all@[i as int]@);
            s.all[i].state = IntentState::Committed;
            proof {
                let n = IntentView { state: IntentState::Committed, ..v0.all[i as int] };
                assert(s.all@[i as int]@ =~= n);
                assert(s@.all =~= v0.all.update(i as int, n));
            }
        },
    }
}

/// How putting back went: the filesystem, the disk, how many steps were reversed
/// and how many could not be, and the error that stopped it, if one did.
#[verifier::ext_equal]
pub struct Reversal {
    pub fs: crate::fs::FsView,
    pub disk: crate::blk::DiskView,
    pub reversed: nat,
    pub refused: nat,
    pub failed: Option<&'static str>,
}

/// Putting one more step back.
#[verifier::opaque]
pub open spec fn put_one_back(so_far: Reversal, s: StepView) -> Reversal {
    if so_far.failed is Some {
        so_far
    } else if !s.undoable {
        Reversal { refused: so_far.refused + 1, ..so_far }
    } else {
        let (fs2, d2, r) = so_far.fs.set_entry_outcome(so_far.disk, s.target, s.before);
        match r {
            Ok(_) => Reversal { fs: fs2, disk: d2, reversed: so_far.reversed + 1, ..so_far },
            Err(e) => Reversal { fs: fs2, disk: d2, failed: Some(e), ..so_far },
        }
    }
}

/// Putting the last `n` of the steps back, newest first.
pub open spec fn put_back(
    fs: crate::fs::FsView,
    d: crate::blk::DiskView,
    steps: Seq<StepView>,
    n: nat,
) -> Reversal
    decreases n,
{
    if n == 0 {
        Reversal { fs, disk: d, reversed: 0, refused: 0, failed: None }
    } else {
        put_one_back(put_back(fs, d, steps, (n - 1) as nat), steps[steps.len() - n])
    }
}

/// Everything undoing an intent does.
pub open spec fn undo_outcome(
    v: IntentsView,
    id: u64,
    fs: crate::fs::FsView,
    d: crate::blk::DiskView,
) -> (
    IntentsView,
    crate::fs::FsView,
    crate::blk::DiskView,
    Result<(usize, usize), &'static str>,
) {
    match find_intent(v.all, id, 0) {
        None => (v, fs, d, Err("no such intent")),
        Some(i) => {
            let it = v.all[i];
            if it.state == IntentState::Undone {
                (v, fs, d, Err("already undone"))
            } else {
                let r = put_back(fs, d, it.steps, it.steps.len());
                match r.failed {
                    Some(e) => (v, r.fs, r.disk, Err(e)),
                    None => (
                        v.with(i, IntentView { state: IntentState::Undone, ..it }),
                        r.fs,
                        r.disk,
                        Ok((r.reversed as usize, r.refused as usize)),
                    ),
                }
            }
        },
    }
}

proof fn lemma_failure_stays(
    fs: crate::fs::FsView,
    d: crate::blk::DiskView,
    steps: Seq<StepView>,
    k: nat,
    n: nat,
)
    requires
        k <= n,
        put_back(fs, d, steps, k).failed is Some,
    ensures
        put_back(fs, d, steps, n) == put_back(fs, d, steps, k),
    decreases n - k,
{
    if k < n {
        lemma_failure_stays(fs, d, steps, k, (n - 1) as nat);
        reveal(put_one_back);
    }
}

/// Put one step back. `None` where it cannot be.
fn reverse(step: &Step, fs: &mut Fs, disk: &mut Disk, Ghost(so_far): Ghost<Reversal>) -> (r: Option<
    Result<(), &'static str>,
>)
    requires
        old(fs).wf(),
        old(fs).cp.seq < u64::MAX,
        so_far.fs == old(fs)@,
        so_far.disk == old(disk)@,
        so_far.failed is None,
    ensures
        final(fs).wf(),
        final(fs).cp.seq <= old(fs).cp.seq + 1,
        put_one_back(so_far, step@) == (Reversal {
            fs: final(fs)@,
            disk: final(disk)@,
            reversed: so_far.reversed + if r is Some && r->0 is Ok {
                1nat
            } else {
                0
            },
            refused: so_far.refused + if r is None {
                1nat
            } else {
                0
            },
            failed: match r {
                Some(Err(e)) => Some(e),
                _ => None,
            },
        }),
{
    reveal(put_one_back);
    if !step.undoable {
        return None;
    }
    Some(fs.set_entry(disk, step.target.as_str(), step.before))
}

/// Put everything an intent changed back, newest step first.
///
/// Gives how many steps were reversed and how many could not be. An external step
/// is the second kind: nothing here can un-send a message, and reporting that is
/// more useful than a partial undo that claims success.
pub fn undo(s: &mut Intents, id: u64, fs: &mut Fs, disk: &mut Disk) -> (r: Result<
    (usize, usize),
    &'static str,
>)
    requires
        old(fs).wf(),
        find_intent(old(s)@.all, id, 0) matches Some(i) ==> old(fs).cp.seq
            + old(s)@.all[i].steps.len() < u64::MAX,
    ensures
        final(fs).wf(),
        (final(s)@, final(fs)@, final(disk)@, r) == undo_outcome(
            old(s)@,
            id,
            old(fs)@,
            old(disk)@,
        ),
{
    let ghost v0 = s@;
    let ghost fs0 = fs@;
    let ghost d0 = disk@;
    let i: usize = match s.index_of(id) {
        None => {
            return Err("no such intent");
        },
        Some(i) => i,
    };
    let ghost it = v0.all[i as int];
    assert(it == s.all@[i as int]@);
    if s.all[i].state == IntentState::Undone {
        return Err("already undone");
    }
    let mut reversed: usize = 0;
    let mut refused: usize = 0;
    let mut left: usize = s.all[i].steps.len();
    let ghost steps = it.steps;
    while left > 0
        invariant
            left <= steps.len() <= usize::MAX,
            i < s.all@.len(),
            s@ == v0,
            v0 == old(s)@,
            it == v0.all[i as int],
            find_intent(v0.all, id, 0) == Some(i as int),
            it.state != IntentState::Undone,
            steps == it.steps,
            s.all@[i as int]@ == it,
            fs0 == old(fs)@,
            d0 == old(disk)@,
            fs.wf(),
            fs.cp.seq + left < u64::MAX,
            put_back(fs0, d0, steps, (steps.len() - left) as nat) == (Reversal {
                fs: fs@,
                disk: disk@,
                reversed: reversed as nat,
                refused: refused as nat,
                failed: None,
            }),
            reversed + refused == steps.len() - left,
        decreases left,
    {
        let ghost done = (steps.len() - left) as nat;
        left = left - 1;
        let step = &s.all[i].steps[left];
        assert(steps[left as int] == step@);
        assert(steps[steps.len() - (done + 1)] == step@);
        let ghost so_far = put_back(fs0, d0, steps, done);
        let ghost next = put_back(fs0, d0, steps, done + 1);
        assert(next == put_one_back(so_far, step@));
        match reverse(step, fs, disk, Ghost(so_far)) {
            None => {
                refused = refused + 1;
            },
            Some(Err(e)) => {
                proof {
                    lemma_failure_stays(fs0, d0, steps, done + 1, steps.len());
                }
                return Err(e);
            },
            Some(Ok(_)) => {
                reversed = reversed + 1;
            },
        }
        assert(next == (Reversal {
            fs: fs@,
            disk: disk@,
            reversed: reversed as nat,
            refused: refused as nat,
            failed: None,
        }));
    }
    s.all[i].state = IntentState::Undone;
    proof {
        let n = IntentView { state: IntentState::Undone, ..it };
        assert(s.all@[i as int]@ =~= n);
        assert(s@.all =~= v0.all.update(i as int, n));
        assert(s@ =~= v0.with(i as int, n));
    }
    Ok((reversed, refused))
}

/// Hand every intent to `f`, in the order they were begun.
pub fn for_each<F: Fn(&Intent)>(s: &Intents, f: F)
    requires
        forall|i: int|
            0 <= i < s.all@.len() ==> call_requires(f, (&#[trigger] s.all@[i],)),
    ensures
        forall|i: int|
            0 <= i < s.all@.len() ==> call_ensures(f, (&#[trigger] s.all@[i],), ()),
{
    let mut i: usize = 0;
    while i < s.all.len()
        invariant
            i <= s.all@.len(),
            forall|k: int|
                0 <= k < s.all@.len() ==> call_requires(f, (&#[trigger] s.all@[k],)),
            forall|k: int| 0 <= k < i ==> call_ensures(f, (&#[trigger] s.all@[k],), ()),
        decreases s.all@.len() - i,
    {
        f(&s.all[i]);
        i = i + 1;
    }
}

/// How many steps an intent has recorded; none, if there is no such intent.
pub fn steps(s: &Intents, id: u64) -> (n: usize)
    ensures
        n == (match find_intent(s@.all, id, 0) {
            Some(i) => s@.all[i].steps.len(),
            None => 0,
        }),
{
    match s.index_of(id) {
        None => 0,
        Some(i) => {
            assert(s@.all[i as int] == s.all@[i as int]@);
            s.all[i].steps.len()
        },
    }
}

} // verus!
