//! Capabilities.
//!
//! A process's authority is exactly the set of capabilities in its table, and
//! nothing else. There is no ambient permission to check, no global name a
//! process can guess its way to, and no way to widen a capability you were
//! handed — only to narrow it.
//!
//! Each capability records the one it was derived from, so authority forms a
//! tree rooted at whoever created the object. Revoking a node kills the whole
//! subtree in one operation.
use vstd::prelude::*;

verus! {

pub const RIGHT_SEND: u32 = 1;

pub const RIGHT_RECV: u32 = 2;

/// May hand derived copies to another process.
pub const RIGHT_GRANT: u32 = 4;

/// May map a device's registers, or a DMA region, into its address space.
pub const RIGHT_MAP: u32 = 8;

/// May wait on an interrupt.
pub const RIGHT_IRQ: u32 = 16;

pub const RIGHTS_ALL: u32 = 31;

/// What a capability points at. Hardware is named the same way everything else
/// is: what makes a process a driver is holding an `Mmio` capability to one
/// device's registers, an `Irq` to that device's line, and a `Dma` region the
/// device can reach.
#[derive(Clone, Copy, PartialEq, Eq, Debug)]
pub enum Obj {
    Channel(usize),
    /// A device register window, by physical address.
    Mmio { base: u64, size: u64 },
    /// A GIC interrupt.
    Irq(u32),
    /// Physically contiguous memory a device can be pointed at.
    Dma { base: u64, pages: u64 },
    /// The right to invoke a published operation.
    Operation(&'static str),
}

#[derive(Clone, Copy)]
pub struct Cap {
    /// Unique and never reused, so a stale id can be recognised rather than
    /// resolving to whatever took its place.
    pub id: u64,
    pub obj: Obj,
    pub rights: u32,
    /// Tombstoned rather than removed: a revoked capability must be
    /// distinguishable from one that was never granted.
    pub revoked: bool,
    /// Who this was derived *for*, and *why*.
    pub holder: &'static str,
    pub purpose: &'static str,
}

/// One entry per capability ever minted. Kept outside the capability tables so a
/// chain stays walkable after the capabilities themselves are gone — which is
/// exactly when someone asks.
#[derive(Clone, Copy)]
pub struct Provenance {
    pub parent: u64,
    pub holder: &'static str,
    pub purpose: &'static str,
    pub rights: u32,
}

/// Every capability ever minted, in order: capability `id` is entry `id - 1`.
pub struct Ledger {
    pub entries: Vec<Provenance>,
}

impl View for Ledger {
    type V = Seq<Provenance>;

    open spec fn view(&self) -> Seq<Provenance> {
        self.entries@
    }
}

/// Every capability was derived from one minted before it, or from none.
pub open spec fn rooted(l: Seq<Provenance>) -> bool {
    forall|i: int| 0 <= i < l.len() ==> (#[trigger] l[i]).parent <= i
}

/// `id` is `ancestor`, or was derived from it through any number of steps.
pub open spec fn descends(l: Seq<Provenance>, id: u64, ancestor: u64) -> bool
    decreases id,
{
    if id == 0 {
        false
    } else if id == ancestor {
        true
    } else if id > l.len() {
        false
    } else {
        let p = l[id - 1].parent;
        p < id && descends(l, p, ancestor)
    }
}

/// The chain of delegation that produced `id`, nearest first, cut at `room`.
pub open spec fn chain_of(l: Seq<Provenance>, id: u64, room: nat) -> Seq<(u64, Provenance)>
    decreases room,
{
    if id == 0 || room == 0 || id > l.len() {
        Seq::empty()
    } else {
        seq![(id, l[id - 1])] + chain_of(l, l[id - 1].parent, (room - 1) as nat)
    }
}

/// The ledger entry a minting makes.
pub open spec fn entry_for(
    parent: u64,
    holder: &'static str,
    purpose: &'static str,
    rights: u32,
) -> Provenance {
    Provenance { parent, holder, purpose, rights }
}

impl Ledger {
    pub fn new() -> (l: Ledger)
        ensures
            l@ == Seq::<Provenance>::empty(),
    {
        Ledger { entries: Vec::new() }
    }

    fn register(
        &mut self,
        parent: u64,
        holder: &'static str,
        purpose: &'static str,
        rights: u32,
    ) -> (id: u64)
        ensures
            final(self)@ == old(self)@.push(entry_for(parent, holder, purpose, rights)),
            id == final(self)@.len(),
    {
        self.entries.push(Provenance { parent, holder, purpose, rights });
        self.entries.len() as u64
    }
}

/// The chain of delegation that produced `id`, nearest first: how many links
/// were written to `out`.
///
/// This is the answer to "what did the assistant do last Tuesday, and on whose
/// authority": every link says who held the capability and what it was for,
/// back to whoever first created the object.
pub fn chain(ledger: &Ledger, id: u64, out: &mut [(u64, Provenance)]) -> (n: usize)
    ensures
        final(out)@.len() == old(out)@.len(),
        n == chain_of(ledger@, id, old(out)@.len()).len(),
        n <= old(out)@.len(),
        final(out)@ == chain_of(ledger@, id, old(out)@.len()) + old(out)@.skip(n as int),
{
    let ghost out0 = out@;
    let ghost want = chain_of(ledger@, id, out0.len());
    let mut cur: u64 = id;
    let mut n: usize = 0;
    assert(out@ =~= want.take(0) + out0.skip(0));
    while cur != 0 && n < out.len() && cur <= ledger.entries.len() as u64
        invariant
            out@.len() == out0.len(),
            n <= out0.len(),
            n <= want.len(),
            want == chain_of(ledger@, id, out0.len()),
            want == want.take(n as int) + chain_of(ledger@, cur, (out0.len() - n) as nat),
            out@ == want.take(n as int) + out0.skip(n as int),
        decreases out0.len() - n,
    {
        let p = ledger.entries[(cur - 1) as usize];
        let ghost rest = chain_of(ledger@, cur, (out0.len() - n) as nat);
        assert(rest[0] == (cur, p));
        assert(want[n as int] == rest[0]);
        out[n] = (cur, p);
        proof {
            assert(rest =~= seq![(cur, p)] + chain_of(
                ledger@,
                p.parent,
                (out0.len() - n - 1) as nat,
            ));
            assert(want.take(n + 1) =~= want.take(n as int).push((cur, p)));
            assert(want =~= want.take(n + 1) + chain_of(
                ledger@,
                p.parent,
                (out0.len() - n - 1) as nat,
            ));
            assert(out@ =~= want.take(n + 1) + out0.skip(n + 1));
        }
        n = n + 1;
        cur = p.parent;
    }
    assert(want =~= want.take(n as int));
    n
}

/// A capability derived from `c`: its rights cut down to those asked for.
pub open spec fn narrowed(
    c: Cap,
    id: u64,
    rights: u32,
    holder: &'static str,
    purpose: &'static str,
) -> Cap {
    Cap { id, obj: c.obj, rights: c.rights & rights, revoked: c.revoked, holder, purpose }
}

impl Cap {
    /// Mint the first capability to a newly created object.
    pub fn root(ledger: &mut Ledger, obj: Obj, rights: u32) -> (c: Cap)
        ensures
            final(ledger)@ == old(ledger)@.push(
                entry_for(0, "kernel", "created the object", rights),
            ),
            c == (Cap {
                id: c.id,
                obj,
                rights,
                revoked: false,
                holder: "kernel",
                purpose: "created the object",
            }),
            c.id == final(ledger)@.len(),
    {
        Cap::root_for(ledger, obj, rights, "kernel", "created the object")
    }

    /// Mint a root capability, recording who it is for and why.
    pub fn root_for(
        ledger: &mut Ledger,
        obj: Obj,
        rights: u32,
        holder: &'static str,
        purpose: &'static str,
    ) -> (c: Cap)
        ensures
            final(ledger)@ == old(ledger)@.push(entry_for(0, holder, purpose, rights)),
            c == (Cap { id: c.id, obj, rights, revoked: false, holder, purpose }),
            c.id == final(ledger)@.len(),
    {
        let id = ledger.register(0, holder, purpose, rights);
        Cap { id, obj, rights, revoked: false, holder, purpose }
    }

    /// Derive a weaker capability. Rights are intersected, never unioned: this
    /// is the only way to make a new capability, so authority can only shrink
    /// as it is delegated.
    pub fn derive(&self, ledger: &mut Ledger, rights: u32) -> (c: Cap)
        ensures
            final(ledger)@ == old(ledger)@.push(
                entry_for(self.id, "unnamed", "unstated", self.rights & rights),
            ),
            c == narrowed(*self, c.id, rights, "unnamed", "unstated"),
            c.id == final(ledger)@.len(),
    {
        self.derive_for(ledger, rights, "unnamed", "unstated")
    }

    /// Derive, saying who it is for and what it is for. Every delegation an
    /// agent makes goes through here, so the chain is complete by construction
    /// rather than by remembering to log it.
    pub fn derive_for(
        &self,
        ledger: &mut Ledger,
        rights: u32,
        holder: &'static str,
        purpose: &'static str,
    ) -> (c: Cap)
        ensures
            final(ledger)@ == old(ledger)@.push(
                entry_for(self.id, holder, purpose, self.rights & rights),
            ),
            c == narrowed(*self, c.id, rights, holder, purpose),
            c.id == final(ledger)@.len(),
    {
        let narrowed = self.rights & rights;
        let id = ledger.register(self.id, holder, purpose, narrowed);
        Cap { id, obj: self.obj, rights: narrowed, revoked: self.revoked, holder, purpose }
    }

    pub fn allows(&self, right: u32) -> (r: bool)
        ensures
            r == (!self.revoked && self.rights & right != 0),
    {
        !self.revoked && self.rights & right != 0
    }

    pub fn channel(&self) -> (r: Option<usize>)
        ensures
            r == (match self.obj {
                Obj::Channel(c) => Some(c),
                _ => None,
            }),
    {
        match self.obj {
            Obj::Channel(c) => Some(c),
            _ => None,
        }
    }

    /// Human-readable rights, for the audit output.
    pub fn rights_str(&self) -> (r: &'static str)
        ensures
            r == named_rights(self.rights),
    {
        rights_name(self.rights)
    }

    /// What kind of thing this points at, for the audit output.
    pub fn obj_str(&self) -> (r: &'static str)
        ensures
            r == (match self.obj {
                Obj::Channel(_) => "channel",
                Obj::Mmio { .. } => "mmio",
                Obj::Irq(_) => "irq",
                Obj::Dma { .. } => "dma",
                Obj::Operation(_) => "operation",
            }),
    {
        match self.obj {
            Obj::Channel(_) => "channel",
            Obj::Mmio { .. } => "mmio",
            Obj::Irq(_) => "irq",
            Obj::Dma { .. } => "dma",
            Obj::Operation(_) => "operation",
        }
    }
}

/// The name of a set of rights.
pub open spec fn named_rights(rights: u32) -> &'static str {
    let r = rights & RIGHTS_ALL;
    if r == RIGHTS_ALL {
        "all"
    } else if r == RIGHT_SEND + RIGHT_RECV + RIGHT_GRANT {
        "send+recv+grant"
    } else if r == RIGHT_SEND + RIGHT_RECV {
        "send+recv"
    } else if r == RIGHT_SEND {
        "send"
    } else if r == RIGHT_RECV {
        "recv"
    } else if r == RIGHT_MAP {
        "map"
    } else if r == RIGHT_IRQ {
        "irq"
    } else if r == RIGHT_GRANT {
        "grant"
    } else if r == 0 {
        "none"
    } else {
        "mixed"
    }
}

/// Name a set of rights, for reports.
///
/// Its own function rather than a method, because the interesting place to
/// print rights is a delegation chain — where the capabilities themselves are
/// often gone and only the ledger's record of them remains.
pub fn rights_name(rights: u32) -> (r: &'static str)
    ensures
        r == named_rights(rights),
{
    match rights & RIGHTS_ALL {
        31 => "all",
        7 => "send+recv+grant",
        3 => "send+recv",
        1 => "send",
        2 => "recv",
        8 => "map",
        16 => "irq",
        4 => "grant",
        0 => "none",
        _ => "mixed",
    }
}

/// Is `id` `ancestor`, or descended from it?
pub fn is_descendant(ledger: &Ledger, id: u64, ancestor: u64) -> (r: bool)
    requires
        rooted(ledger@),
    ensures
        r == descends(ledger@, id, ancestor),
{
    let mut cur: u64 = id;
    while cur != 0
        invariant
            rooted(ledger@),
            descends(ledger@, id, ancestor) == descends(ledger@, cur, ancestor),
        decreases cur,
    {
        if cur == ancestor {
            return true;
        }
        if cur > ledger.entries.len() as u64 {
            return false;
        }
        let p = ledger.entries[(cur - 1) as usize];
        assert(ledger@[cur - 1].parent <= cur - 1);
        cur = p.parent;
    }
    false
}

/// Total capabilities ever minted, derived ones included.
pub fn minted(ledger: &Ledger) -> (n: usize)
    ensures
        n == ledger@.len(),
{
    ledger.entries.len()
}

// ---- what capabilities promise ----------------------------------------------

/// Every derived capability's rights lie within its parent's.
pub open spec fn narrowing(l: Seq<Provenance>) -> bool {
    forall|i: int|
        0 <= i < l.len() && (#[trigger] l[i]).parent != 0 ==> l[i].rights & !l[l[i].parent
            - 1].rights == 0
}

/// A capability that this ledger minted.
pub open spec fn minted_here(c: Cap, l: Seq<Provenance>) -> bool {
    1 <= c.id <= l.len() && l[c.id - 1].rights == c.rights
}

proof fn lemma_within_is_transitive(a: u32, b: u32, c: u32)
    by (bit_vector)
    requires
        a & !b == 0,
        b & !c == 0,
    ensures
        a & !c == 0,
{
}

proof fn lemma_within(a: u32, b: u32)
    by (bit_vector)
    ensures
        a & !a == 0,
        (a & b) & !a == 0,
        (a & b) & !b == 0,
        forall|bit: u32| #![trigger (a & b) & bit] (a & b) & bit == (a & bit) & (b & bit),
{
}

/// A derived capability has no right that either the one it was derived from or the request
/// lacks, and every right that both have; it is to the same thing, and is no more alive.
pub proof fn deriving_keeps_what_both_have(
    c: Cap,
    id: u64,
    rights: u32,
    holder: &'static str,
    purpose: &'static str,
    bit: u32,
)
    ensures
        ({
            let d = narrowed(c, id, rights, holder, purpose);
            &&& d.rights & !c.rights == 0
            &&& d.rights & !rights == 0
            &&& d.rights & bit == (c.rights & bit) & (rights & bit)
            &&& d.obj == c.obj && d.revoked == c.revoked
            &&& d.id == id && d.holder == holder && d.purpose == purpose
        }),
{
    lemma_within(c.rights, rights);
    assert((c.rights & rights) & bit == (c.rights & bit) & (rights & bit));
}

/// Minting keeps the ledger a forest in which rights only narrow.
pub proof fn minting_keeps_the_ledger(l: Seq<Provenance>, from: Option<Cap>, e: Provenance)
    requires
        rooted(l),
        narrowing(l),
        match from {
            Some(c) => minted_here(c, l) && e.parent == c.id && exists|want: u32|
                e.rights == #[trigger] (c.rights & want),
            None => e.parent == 0,
        },
    ensures
        rooted(l.push(e)),
        narrowing(l.push(e)),
{
    match from {
        Some(c) => {
            let want = choose|want: u32| e.rights == #[trigger] (c.rights & want);
            lemma_within(c.rights, want);
        },
        None => {},
    }
    let m = l.push(e);
    assert forall|i: int| 0 <= i < m.len() && (#[trigger] m[i]).parent != 0 implies m[i].rights
        & !m[m[i].parent - 1].rights == 0 by {
        if i < l.len() {
            assert(m[i] == l[i]);
            assert(l[i].parent <= i);
        }
    }
    assert forall|i: int| 0 <= i < m.len() implies (#[trigger] m[i]).parent <= i by {
        if i < l.len() {
            assert(m[i] == l[i]);
        }
    }
}

/// Authority only shrinks as it is delegated: whatever descends from a
/// capability, through any number of hands, has no right that it lacked.
pub proof fn delegation_never_widens(l: Seq<Provenance>, id: u64, ancestor: u64)
    requires
        rooted(l),
        narrowing(l),
        id <= l.len(),
        descends(l, id, ancestor),
    ensures
        1 <= ancestor <= id,
        l[id - 1].rights & !l[ancestor - 1].rights == 0,
    decreases id,
{
    lemma_within(l[id - 1].rights, 0);
    if id != ancestor {
        let p = l[id - 1].parent;
        delegation_never_widens(l, p, ancestor);
        lemma_within_is_transitive(l[id - 1].rights, l[p - 1].rights, l[ancestor - 1].rights);
    }
}

/// Descent is transitive, so a subtree contains the subtrees of its members.
pub proof fn descent_is_transitive(l: Seq<Provenance>, a: u64, b: u64, c: u64)
    requires
        descends(l, a, b),
        descends(l, b, c),
    ensures
        descends(l, a, c),
    decreases a,
{
    if a != b && a != c {
        descent_is_transitive(l, l[a - 1].parent, b, c);
    }
}

/// Every capability descends from itself.
pub proof fn descent_is_reflexive(l: Seq<Provenance>, a: u64)
    requires
        a != 0,
    ensures
        descends(l, a, a),
{
}

/// Minting another capability changes no earlier line of descent.
pub proof fn minting_keeps_descent(l: Seq<Provenance>, e: Provenance, a: u64, b: u64)
    requires
        a <= l.len(),
    ensures
        descends(l.push(e), a, b) == descends(l, a, b),
    decreases a,
{
    if a != 0 && a != b {
        let p = l[a - 1].parent;
        if p < a {
            minting_keeps_descent(l, e, p, b);
        }
    }
}

/// A new capability descends from exactly itself and what its parent descends
/// from: nothing else gains or loses authority over it.
pub proof fn derived_descends_through_its_parent(l: Seq<Provenance>, e: Provenance, b: u64)
    requires
        rooted(l),
        e.parent <= l.len(),
        l.len() < u64::MAX,
    ensures
        ({
            let id = (l.len() + 1) as u64;
            descends(l.push(e), id, b) == (b == id || descends(l, e.parent, b))
        }),
{
    minting_keeps_descent(l, e, e.parent, b);
}

/// A delegation chain starts at the capability asked about, and every link in
/// it is something that capability descends from.
pub proof fn chain_lists_ancestors(l: Seq<Provenance>, id: u64, room: nat, k: int)
    requires
        rooted(l),
        0 <= k < chain_of(l, id, room).len(),
    ensures
        descends(l, id, chain_of(l, id, room)[k].0),
        chain_of(l, id, room)[0].0 == id,
    decreases room,
{
    if k > 0 {
        let p = l[id - 1].parent;
        let rest = chain_of(l, p, (room - 1) as nat);
        assert(chain_of(l, id, room)[k] == rest[k - 1]);
        chain_lists_ancestors(l, p, (room - 1) as nat, k - 1);
        let b = rest[k - 1].0;
        descent_is_below(l, p, b);
    }
}

/// A delegation chain with room to spare leaves nobody out: everything that the
/// capability descends from is a link in it.
pub proof fn chain_lists_every_ancestor(l: Seq<Provenance>, id: u64, room: nat, ancestor: u64)
    requires
        rooted(l),
        chain_of(l, id, room).len() < room,
        descends(l, id, ancestor),
        ancestor <= l.len(),
    ensures
        exists|k: int|
            0 <= k < chain_of(l, id, room).len() && #[trigger] chain_of(l, id, room)[k] == (
                ancestor,
                l[ancestor - 1],
            ),
    decreases room,
{
    let whole = chain_of(l, id, room);
    if id == ancestor {
        assert(whole[0] == (ancestor, l[ancestor - 1]));
    } else {
        let p = l[id - 1].parent;
        let rest = chain_of(l, p, (room - 1) as nat);
        assert(whole == seq![(id, l[id - 1])] + rest);
        chain_lists_every_ancestor(l, p, (room - 1) as nat, ancestor);
        let k = choose|k: int|
            0 <= k < rest.len() && #[trigger] rest[k] == (ancestor, l[ancestor - 1]);
        assert(whole[k + 1] == rest[k]);
    }
}

/// What a capability descends from was minted no later than it.
pub proof fn descent_is_below(l: Seq<Provenance>, a: u64, b: u64)
    requires
        descends(l, a, b),
    ensures
        1 <= b <= a,
    decreases a,
{
    if a != b {
        descent_is_below(l, l[a - 1].parent, b);
    }
}

} // verus!
