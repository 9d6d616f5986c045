//! The model store: weights as a kernel object rather than bytes an application
//! read into its heap.
//!
//! A model is
//!
//! - **content-addressed**, so two processes asking for the same weights get the
//!   same object and the same physical pages;
//! - **mapped, not loaded**, so a page arrives when something touches it;
//! - **reclaimable**, because every resident page is clean by construction: it is
//!   a copy of what is on flash, so dropping it costs a re-read and nothing else.
//!
//! Weight pages are mapped read-only into every process that holds them.
use vstd::prelude::*;
use vstd::slice::slice_subrange;
use crate::audit::fnv1a;
use crate::blk::Disk;
use crate::bytes::same_text;
use crate::mm::frames::{alloc_frame, free, Frames};
use crate::mm::paging::{Path, Perm};
use crate::mm::ram::Ram;
use crate::proc::{Process, Table};

verus! {

/// A process that has a model mapped, and where.
#[derive(Clone, Copy)]
pub struct Mapping {
    pub pid: usize,
    pub base: u64,
}

/// What is behind one page of a model.
///
/// `Loading` matters more than it looks: without it, two cores faulting the same
/// page both read it from flash and one copy is thrown away. The second faulter
/// waits instead.
#[derive(Clone, Copy, Debug, PartialEq, Eq, Structural)]
pub enum PageState {
    Absent,
    Loading,
    Resident(u64),
}

pub struct Model {
    pub id: u64,
    /// Content hash. Two files with the same bytes are the same model, however
    /// they were named or whoever asked for them.
    pub hash: u64,
    pub size: usize,
    /// First sector of the backing file, so a fault can read a page without going
    /// back through the filesystem.
    pub start_sector: u64,
    pub pages: Vec<PageState>,
    pub mappings: Vec<Mapping>,
    pub refs: usize,
    pub faults: u64,
    pub reclaimed: u64,
}

#[verifier::ext_equal]
pub struct ModelView {
    pub id: u64,
    pub hash: u64,
    pub size: usize,
    pub start_sector: u64,
    pub pages: Seq<PageState>,
    pub mappings: Seq<Mapping>,
    pub refs: usize,
    pub faults: u64,
    pub reclaimed: u64,
}

impl View for Model {
    type V = ModelView;

    open spec fn view(&self) -> ModelView {
        ModelView {
            id: self.id,
            hash: self.hash,
            size: self.size,
            start_sector: self.start_sector,
            pages: self.pages@,
            mappings: self.mappings@,
            refs: self.refs,
            faults: self.faults,
            reclaimed: self.reclaimed,
        }
    }
}

/// A model file that processes may open.
#[derive(Clone, Copy)]
pub struct Published {
    pub name: &'static str,
    pub start_sector: u64,
    pub size: usize,
}

pub struct Store {
    pub models: Vec<Model>,
    pub next_id: u64,
    pub published: Vec<Published>,
    /// The resident pages in the order they were read, newest last: which model, and
    /// which of its pages.
    pub order: Vec<(usize, usize)>,
    /// Pages currently held by all models, for the memory-pressure report.
    pub resident: u64,
    /// Pages served from an already-resident frame — the sharing dividend.
    pub shared_hits: u64,
}

#[verifier::ext_equal]
pub struct StoreView {
    pub models: Seq<ModelView>,
    pub next_id: u64,
    pub published: Seq<Published>,
    pub order: Seq<(int, int)>,
    pub resident: u64,
    pub shared_hits: u64,
}

impl View for Store {
    type V = StoreView;

    open spec fn view(&self) -> StoreView {
        StoreView {
            models: self.models@.map_values(|m: Model| m@),
            next_id: self.next_id,
            published: self.published@,
            order: self.order@.map_values(|p: (usize, usize)| (p.0 as int, p.1 as int)),
            resident: self.resident,
            shared_hits: self.shared_hits,
        }
    }
}

/// Pages that `size` bytes take.
pub open spec fn pages_for(size: int) -> int {
    (size + 4095) / 4096
}

impl ModelView {
    /// There is a page state for every page, and every sector has a number.
    pub open spec fn wf(self) -> bool {
        &&& self.pages.len() == pages_for(self.size as int)
        &&& self.start_sector + crate::fs::sectors_for(self.size as int) <= u64::MAX
    }

    pub open spec fn with_page(self, index: int, p: PageState) -> ModelView {
        ModelView { pages: self.pages.update(index, p), ..self }
    }

    pub open spec fn faulted(self) -> ModelView {
        ModelView { faults: self.faults.wrapping_add(1), ..self }
    }
}

/// How many of the first `n` pages are resident.
pub open spec fn resident_among(pages: Seq<PageState>, n: int) -> int
    decreases n,
{
    if n <= 0 {
        0
    } else {
        resident_among(pages, n - 1) + if pages[n - 1] is Resident {
            1int
        } else {
            0
        }
    }
}

proof fn lemma_resident_bound(pages: Seq<PageState>, n: int)
    requires
        0 <= n,
    ensures
        0 <= resident_among(pages, n) <= n,
    decreases n,
{
    if n > 0 {
        lemma_resident_bound(pages, n - 1);
    }
}

impl Model {
    pub fn total_pages(&self) -> (n: usize)
        ensures
            n == self@.pages.len(),
    {
        self.pages.len()
    }

    pub fn resident_pages(&self) -> (n: usize)
        ensures
            n == resident_among(self@.pages, self@.pages.len() as int),
    {
        let mut n: usize = 0;
        let mut i: usize = 0;
        while i < self.pages.len()
            invariant
                i <= self.pages@.len(),
                n == resident_among(self.pages@, i as int),
                n <= i,
            decreases self.pages@.len() - i,
        {
            match self.pages[i] {
                PageState::Resident(_) => {
                    n = n + 1;
                },
                _ => {},
            }
            i = i + 1;
        }
        n
    }
}

/// Whether a page of a model is resident.
pub open spec fn is_resident(models: Seq<ModelView>, page: (int, int)) -> bool {
    &&& 0 <= page.0 < models.len()
    &&& 0 <= page.1 < models[page.0].pages.len()
    &&& models[page.0].pages[page.1] is Resident
}

/// Whether a list names every resident page once, and nothing else.
#[verifier::opaque]
pub open spec fn lists_residents(models: Seq<ModelView>, order: Seq<(int, int)>) -> bool {
    &&& forall|k: int| 0 <= k < order.len() ==> is_resident(models, #[trigger] order[k])
    &&& forall|k: int, l: int|
        0 <= k < l < order.len() ==> #[trigger] order[k] != #[trigger] order[l]
    &&& forall|p: (int, int)| #[trigger] is_resident(models, p) ==> order.contains(p)
}

impl StoreView {
    /// Models are told apart by their numbers, and the resident pages are known and
    /// counted.
    pub open spec fn wf(self) -> bool {
        &&& forall|i: int| 0 <= i < self.models.len() ==> (#[trigger] self.models[i]).wf()
        &&& forall|i: int|
            0 <= i < self.models.len() ==> (#[trigger] self.models[i]).id < self.next_id
        &&& forall|i: int, j: int|
            0 <= i < j < self.models.len() ==> (#[trigger] self.models[i]).id != (
            #[trigger] self.models[j]).id
        &&& lists_residents(self.models, self.order)
        &&& self.resident == self.order.len()
    }

    pub open spec fn with_model(self, i: int, m: ModelView) -> StoreView {
        StoreView { models: self.models.update(i, m), ..self }
    }
}

/// The first model at or after the `i`th with this number.
pub open spec fn find_id(models: Seq<ModelView>, id: u64, i: int) -> Option<int>
    decreases models.len() - i,
{
    if i >= models.len() {
        None
    } else if models[i].id == id {
        Some(i)
    } else {
        find_id(models, id, i + 1)
    }
}

/// The first model at or after the `i`th with this content.
pub open spec fn find_hash(models: Seq<ModelView>, hash: u64, i: int) -> Option<int>
    decreases models.len() - i,
{
    if i >= models.len() {
        None
    } else if models[i].hash == hash {
        Some(i)
    } else {
        find_hash(models, hash, i + 1)
    }
}

/// The first published file at or after the `i`th with this name.
pub open spec fn find_name(list: Seq<Published>, name: Seq<char>, i: int) -> Option<int>
    decreases list.len() - i,
{
    if i >= list.len() {
        None
    } else if list[i].name@ == name {
        Some(i)
    } else {
        find_name(list, name, i + 1)
    }
}

proof fn lemma_found_id(models: Seq<ModelView>, id: u64, i: int)
    requires
        0 <= i,
    ensures
        match find_id(models, id, i) {
            Some(k) => i <= k < models.len() && models[k].id == id,
            None => forall|k: int| i <= k < models.len() ==> (#[trigger] models[k]).id != id,
        },
    decreases models.len() - i,
{
    if i < models.len() && models[i].id != id {
        lemma_found_id(models, id, i + 1);
    }
}

proof fn lemma_found_hash(models: Seq<ModelView>, hash: u64, i: int)
    requires
        0 <= i,
    ensures
        match find_hash(models, hash, i) {
            Some(k) => i <= k < models.len() && models[k].hash == hash,
            None => forall|k: int| i <= k < models.len() ==> (#[trigger] models[k]).hash != hash,
        },
    decreases models.len() - i,
{
    if i < models.len() && models[i].hash != hash {
        lemma_found_hash(models, hash, i + 1);
    }
}

/// Pages that are as resident as they were are listed as they were.
proof fn lemma_still_listed(a: Seq<ModelView>, b: Seq<ModelView>, order: Seq<(int, int)>)
    requires
        lists_residents(a, order),
        forall|p: (int, int)| #[trigger] is_resident(b, p) == is_resident(a, p),
    ensures
        lists_residents(b, order),
{
    reveal(lists_residents);
}

/// One model replaced by another with the same number and pages that are as resident.
proof fn lemma_replaced(v: StoreView, i: int, m: ModelView)
    requires
        v.wf(),
        0 <= i < v.models.len(),
        m.wf(),
        m.id == v.models[i].id,
        m.pages.len() == v.models[i].pages.len(),
        forall|j: int|
            0 <= j < m.pages.len() ==> (#[trigger] m.pages[j] is Resident) == (
            v.models[i].pages[j] is Resident),
    ensures
        v.with_model(i, m).wf(),
{
    let w = v.with_model(i, m);
    assert forall|p: (int, int)| #[trigger] is_resident(w.models, p) == is_resident(
        v.models,
        p,
    ) by {
        if p.0 == i && 0 <= p.1 < m.pages.len() {
            assert((m.pages[p.1] is Resident) == (v.models[i].pages[p.1] is Resident));
        }
    }
    lemma_still_listed(v.models, w.models, v.order);
}

/// A model added with none of its pages resident.
proof fn lemma_added(v: StoreView, m: ModelView)
    requires
        v.wf(),
        m.wf(),
        m.id == v.next_id,
        v.next_id < u64::MAX,
        forall|j: int| 0 <= j < m.pages.len() ==> !(#[trigger] m.pages[j] is Resident),
    ensures
        (StoreView { models: v.models.push(m), next_id: (v.next_id + 1) as u64, ..v }).wf(),
{
    let w = v.models.push(m);
    assert forall|p: (int, int)| #[trigger] is_resident(w, p) == is_resident(v.models, p) by {
        if 0 <= p.0 < v.models.len() {
            assert(w[p.0] == v.models[p.0]);
        }
    }
    lemma_still_listed(v.models, w, v.order);
}

/// A page that becomes resident goes to the end of the list.
proof fn lemma_listed_last(v: StoreView, i: int, j: int, f: u64)
    requires
        v.wf(),
        0 <= i < v.models.len(),
        0 <= j < v.models[i].pages.len(),
        !(v.models[i].pages[j] is Resident),
        v.order.len() < u64::MAX,
    ensures
        (StoreView {
            order: v.order.push((i, j)),
            resident: (v.resident + 1) as u64,
            ..v.with_model(i, v.models[i].with_page(j, PageState::Resident(f)))
        }).wf(),
{
    reveal(lists_residents);
    let m = v.models[i].with_page(j, PageState::Resident(f));
    let w = v.models.update(i, m);
    let o = v.order.push((i, j));
    assert forall|k: int| 0 <= k < o.len() implies is_resident(w, #[trigger] o[k]) by {
        if k < v.order.len() {
            assert(is_resident(v.models, v.order[k]));
        }
    }
    assert forall|k: int, l: int| 0 <= k < l < o.len() implies #[trigger] o[k]
        != #[trigger] o[l] by {
        assert(is_resident(v.models, v.order[k]));
    }
    assert forall|p: (int, int)| #[trigger] is_resident(w, p) implies o.contains(p) by {
        if p == (i, j) {
            assert(o[v.order.len() as int] == p);
        } else {
            assert(is_resident(v.models, p));
            let k = choose|k: int| 0 <= k < v.order.len() && v.order[k] == p;
            assert(o[k] == p);
        }
    }
}

impl Store {
    pub fn new() -> (s: Store)
        ensures
            s@ == (StoreView {
                models: Seq::empty(),
                next_id: 1,
                published: Seq::empty(),
                order: Seq::empty(),
                resident: 0,
                shared_hits: 0,
            }),
            s@.wf(),
    {
        let s = Store {
            models: Vec::new(),
            next_id: 1,
            published: Vec::new(),
            order: Vec::new(),
            resident: 0,
            shared_hits: 0,
        };
        assert(s@.models =~= Seq::empty());
        assert(s@.order =~= Seq::empty());
        reveal(lists_residents);
        s
    }

    fn index_of(&self, id: u64) -> (r: Option<usize>)
        ensures
            match r {
                Some(i) => i < self.models@.len() && find_id(self@.models, id, 0) == Some(i as int),
                None => find_id(self@.models, id, 0) is None,
            },
    {
        let mut i: usize = 0;
        while i < self.models.len()
            invariant
                i <= self.models@.len(),
                find_id(self@.models, id, 0) == find_id(self@.models, id, i as int),
            decreases self.models@.len() - i,
        {
            assert(self@.models[i as int] == self.models@[i as int]@);
            if self.models[i].id == id {
                return Some(i);
            }
            i = i + 1;
        }
        None
    }
}

// ---- opening --------------------------------------------------------------------

/// Make a model file openable by name. A process names a model, never a sector:
/// nothing it can pass reaches storage it was not meant to see.
pub fn publish(s: &mut Store, name: &'static str, start_sector: u64, size: usize)
    ensures
        final(s)@ == (if find_name(old(s)@.published, name@, 0) is Some {
            old(s)@
        } else {
            StoreView {
                published: old(s)@.published.push(Published { name, start_sector, size }),
                ..old(s)@
            }
        }),
{
    let mut i: usize = 0;
    while i < s.published.len()
        invariant
            i <= s.published@.len(),
            *s == *old(s),
            find_name(s.published@, name@, 0) == find_name(s.published@, name@, i as int),
        decreases s.published@.len() - i,
    {
        if same_text(s.published[i].name, name) {
            return ;
        }
        i = i + 1;
    }
    s.published.push(Published { name, start_sector, size });
}

/// The seed of a content hash.
pub const HASH_SEED: u64 = 0xcbf2_9ce4_8422_2325;

/// The bytes of a file of `size` bytes that starts at a sector.
pub open spec fn content(sectors: Seq<Seq<u8>>, start: u64, size: int) -> Seq<u8> {
    Seq::new(size as nat, |i: int| crate::fs::extent_byte(sectors, start, i))
}

/// The hash of a file's content.
pub open spec fn content_hash(sectors: Seq<Seq<u8>>, start: u64, size: int) -> u64 {
    crate::audit::fnv(HASH_SEED, content(sectors, start, size))
}

proof fn lemma_fnv_in_pieces(h: u64, a: Seq<u8>, b: Seq<u8>)
    ensures
        crate::audit::fnv(crate::audit::fnv(h, a), b) == crate::audit::fnv(h, a + b),
    decreases b.len(),
{
    if b.len() == 0 {
        assert(a + b =~= a);
    } else {
        lemma_fnv_in_pieces(h, a, b.drop_last());
        assert((a + b).drop_last() =~= a + b.drop_last());
        assert((a + b).last() == b.last());
    }
}

/// Hash the content of a file. This is the expensive part of opening a model, and
/// it is what makes the deduplication real rather than a filename comparison.
fn hash_file(disk: &mut Disk, start_sector: u64, size: usize) -> (r: Result<u64, &'static str>)
    requires
        start_sector + crate::fs::sectors_for(size as int) <= u64::MAX,
    ensures
        ({
            let (d, v) = old(disk)@.after_reads(
                start_sector,
                crate::fs::sectors_for(size as int) as nat,
            );
            &&& final(disk)@ == d
            &&& r == (match v {
                Ok(_) => Ok::<u64, &'static str>(
                    content_hash(old(disk)@.sectors, start_sector, size as int),
                ),
                Err(e) => Err(e),
            })
        }),
{
    let ghost d0 = disk@;
    let ghost n = crate::fs::sectors_for(size as int);
    let mut hash: u64 = HASH_SEED;
    let mut sector: [u8; 512] = [0;512];
    let mut left: usize = size;
    let mut s: u64 = 0;
    assert(content(d0.sectors, start_sector, 0) =~= Seq::empty());
    proof {
        crate::blk::readable_bounds(d0, start_sector, n as nat);
    }
    while left > 0
        invariant
            start_sector + n <= u64::MAX,
            n == crate::fs::sectors_for(size as int),
            left <= size,
            d0 == old(disk)@,
            s <= n,
            disk@ == d0.spent(s as nat),
            s <= d0.readable(start_sector, n as nat) <= n,
            left == if 512 * s < size {
                size - 512 * s
            } else {
                0
            },
            hash == content_hash(d0.sectors, start_sector, size - left),
        decreases left,
    {
        proof {
            disk.sectors_are_whole();
            crate::blk::reading_on(d0, start_sector, n as nat, s as nat);
        }
        match disk.read_sector(start_sector + s, &mut sector) {
            Err(e) => {
                return Err(e);
            },
            Ok(_) => {},
        }
        let take: usize = if left < 512 {
            left
        } else {
            512
        };
        let piece = slice_subrange(&sector, 0, take);
        proof {
            let done = size - left;
            let a = content(d0.sectors, start_sector, done);
            let b = content(d0.sectors, start_sector, done + take);
            assert(done == 512 * s);
            assert(piece@ =~= b.skip(done)) by {
                assert forall|i: int| 0 <= i < take implies #[trigger] piece@[i] == b.skip(
                    done,
                )[i] by {
                    assert((done + i) / 512 == s && (done + i) % 512 == i);
                }
            }
            assert(b =~= a + piece@);
            lemma_fnv_in_pieces(HASH_SEED, a, piece@);
        }
        hash = fnv1a(hash, piece);
        left = left - take;
        s = s + 1;
    }
    Ok(hash)
}

/// Everything opening a model does.
pub open spec fn open_outcome(
    v: StoreView,
    d: crate::blk::DiskView,
    start_sector: u64,
    size: usize,
) -> (StoreView, crate::blk::DiskView, Result<u64, &'static str>) {
    let (d1, r) = d.after_reads(start_sector, crate::fs::sectors_for(size as int) as nat);
    match r {
        Err(e) => (v, d1, Err(e)),
        Ok(_) => {
            let hash = content_hash(d.sectors, start_sector, size as int);
            match find_hash(v.models, hash, 0) {
                Some(i) => (
                    v.with_model(
                        i,
                        ModelView { refs: (v.models[i].refs + 1) as usize, ..v.models[i] },
                    ),
                    d1,
                    Ok(v.models[i].id),
                ),
                None => (
                    StoreView {
                        models: v.models.push(
                            ModelView {
                                id: v.next_id,
                                hash,
                                size,
                                start_sector,
                                pages: Seq::new(
                                    pages_for(size as int) as nat,
                                    |i: int| PageState::Absent,
                                ),
                                mappings: Seq::empty(),
                                refs: 1,
                                faults: 0,
                                reclaimed: 0,
                            },
                        ),
                        next_id: (v.next_id + 1) as u64,
                        ..v
                    },
                    d1,
                    Ok(v.next_id),
                ),
            }
        },
    }
}

/// Opening a model leaves the store in order.
pub proof fn opening_keeps_the_store_in_order(
    v: StoreView,
    d: crate::blk::DiskView,
    start_sector: u64,
    size: usize,
)
    requires
        v.wf(),
        v.next_id < u64::MAX,
        start_sector + crate::fs::sectors_for(size as int) <= u64::MAX,
    ensures
        open_outcome(v, d, start_sector, size).0.wf(),
{
    let w = open_outcome(v, d, start_sector, size).0;
    if open_outcome(v, d, start_sector, size).2 is Ok {
        let hash = content_hash(d.sectors, start_sector, size as int);
        lemma_found_hash(v.models, hash, 0);
        match find_hash(v.models, hash, 0) {
            Some(i) => {
                lemma_replaced(v, i, w.models[i]);
            },
            None => {
                lemma_added(v, w.models.last());
            },
        }
    }
}

/// Open a model by where its file is.
///
/// Reads the file once to hash it. If those bytes are already in the store — under
/// any name — the existing object is given and nothing is read again. The name
/// is no part of what a model is.
pub fn open(s: &mut Store, disk: &mut Disk, name: &str, start_sector: u64, size: usize) -> (r:
    Result<u64, &'static str>)
    requires
        start_sector + crate::fs::sectors_for(size as int) <= u64::MAX,
        old(s).next_id < u64::MAX,
        forall|i: int|
            0 <= i < old(s)@.models.len() ==> (#[trigger] old(s)@.models[i]).refs < usize::MAX,
    ensures
        (final(s)@, final(disk)@, r) == open_outcome(old(s)@, old(disk)@, start_sector, size),
        old(s)@.wf() ==> final(s)@.wf(),
{
    let ghost v0 = s@;
    let hash: u64 = match hash_file(disk, start_sector, size) {
        Err(e) => {
            return Err(e);
        },
        Ok(h) => h,
    };
    let mut i: usize = 0;
    while i < s.models.len()
        invariant
            i <= s.models@.len(),
            *s == *old(s),
            v0 == s@,
            find_hash(v0.models, hash, 0) == find_hash(v0.models, hash, i as int),
            forall|k: int|
                0 <= k < v0.models.len() ==> (#[trigger] v0.models[k]).refs < usize::MAX,
            (v0, disk@) == (old(s)@, old(disk)@.after_reads(
                start_sector,
                crate::fs::sectors_for(size as int) as nat,
            ).0),
            hash == content_hash(old(disk)@.sectors, start_sector, size as int),
            old(disk)@.after_reads(
                start_sector,
                crate::fs::sectors_for(size as int) as nat,
            ).1 is Ok,
        decreases s.models@.len() - i,
    {
        assert(v0.models[i as int] == s.models@[i as int]@);
        if s.models[i].hash == hash {
            let id = s.models[i].id;
            s.models[i].refs = s.models[i].refs + 1;
            proof {
                let m = ModelView {
                    refs: (v0.models[i as int].refs + 1) as usize,
                    ..v0.models[i as int]
                };
                assert(s.models@[i as int]@ =~= m);
                assert(s@.models =~= v0.models.update(i as int, m));
                assert(s@ =~= v0.with_model(i as int, m));
            }
            proof {
                if v0.wf() {
                    lemma_replaced(v0, i as int, s@.models[i as int]);
                }
            }
            return Ok(id);
        }
        i = i + 1;
    }
    let id = s.next_id;
    s.next_id = s.next_id + 1;
    let total: usize = size / 4096 + if size % 4096 == 0 {
        0
    } else {
        1
    };
    assert(total == pages_for(size as int));
    let mut pages: Vec<PageState> = Vec::new();
    let mut k: usize = 0;
    while k < total
        invariant
            k <= total,
            pages@ == Seq::new(k as nat, |i: int| PageState::Absent),
        decreases total - k,
    {
        pages.push(PageState::Absent);
        assert(pages@ =~= Seq::new((k + 1) as nat, |i: int| PageState::Absent));
        k = k + 1;
    }
    s.models.push(
        Model {
            id,
            hash,
            size,
            start_sector,
            pages,
            mappings: Vec::new(),
            refs: 1,
            faults: 0,
            reclaimed: 0,
        },
    );
    proof {
        let out = open_outcome(v0, old(disk)@, start_sector, size).0;
        assert(s.models@.last()@ =~= out.models.last());
        assert(s@.models =~= out.models);
        assert(s@ =~= out);
        if v0.wf() {
            lemma_added(v0, out.models.last());
        }
    }
    Ok(id)
}

/// Open a published model by name.
pub fn open_by_name(s: &mut Store, disk: &mut Disk, name: &str) -> (r: Result<u64, &'static str>)
    requires
        old(s).next_id < u64::MAX,
        forall|i: int|
            0 <= i < old(s)@.models.len() ==> (#[trigger] old(s)@.models[i]).refs < usize::MAX,
        forall|i: int|
            0 <= i < old(s)@.published.len() ==> (#[trigger] old(s)@.published[i]).start_sector
                + crate::fs::sectors_for(old(s)@.published[i].size as int) <= u64::MAX,
    ensures
        (final(s)@, final(disk)@, r) == (match find_name(old(s)@.published, name@, 0) {
            Some(i) => open_outcome(
                old(s)@,
                old(disk)@,
                old(s)@.published[i].start_sector,
                old(s)@.published[i].size,
            ),
            None => (old(s)@, old(disk)@, Err::<u64, &'static str>("no such model")),
        }),
        old(s)@.wf() ==> final(s)@.wf(),
{
    let mut i: usize = 0;
    while i < s.published.len()
        invariant
            i <= s.published@.len(),
            *s == *old(s),
            *disk == *old(disk),
            find_name(s.published@, name@, 0) == find_name(s.published@, name@, i as int),
            s.next_id < u64::MAX,
            forall|k: int|
                0 <= k < s@.models.len() ==> (#[trigger] s@.models[k]).refs < usize::MAX,
            forall|k: int|
                0 <= k < s@.published.len() ==> (#[trigger] s@.published[k]).start_sector
                    + crate::fs::sectors_for(s@.published[k].size as int) <= u64::MAX,
        decreases s.published@.len() - i,
    {
        let p = s.published[i];
        assert(s@.published[i as int] == p);
        if same_text(p.name, name) {
            return open(s, disk, p.name, p.start_sector, p.size);
        }
        i = i + 1;
    }
    Err("no such model")
}

/// The store with a model attached to a process at `base`, and what is said.
pub open spec fn attached_at(v: StoreView, id: u64, pid: usize, base: u64) -> (
    StoreView,
    Result<usize, &'static str>,
) {
    match find_id(v.models, id, 0) {
        Some(i) => {
            let m = v.models[i];
            (
                v.with_model(i, ModelView { mappings: m.mappings.push(Mapping { pid, base }), ..m }),
                Ok(m.size),
            )
        },
        None => (v, Err("no such model")),
    }
}

/// Record that `pid` has the model at `base`. No pages are mapped yet: they arrive
/// when something touches them.
pub fn attach(s: &mut Store, id: u64, pid: usize, base: u64) -> (r: Result<usize, &'static str>)
    ensures
        (final(s)@, r) == attached_at(old(s)@, id, pid, base),
        old(s)@.wf() ==> final(s)@.wf(),
{
    let ghost v0 = s@;
    match s.index_of(id) {
        None => Err("no such model"),
        Some(i) => {
            assert(v0.models[i as int] == s.models@[i as int]@);
            let size = s.models[i].size;
            s.models[i].mappings.push(Mapping { pid, base });
            proof {
                let m = v0.models[i as int];
                let n = ModelView { mappings: m.mappings.push(Mapping { pid, base }), ..m };
                assert(s.models@[i as int]@ =~= n);
                assert(s@.models =~= v0.models.update(i as int, n));
                assert(s@ =~= v0.with_model(i as int, n));
                if v0.wf() {
                    lemma_replaced(v0, i as int, n);
                }
            }
            Ok(size)
        },
    }
}

// ---- faults -----------------------------------------------------------------------

/// What a fault finds behind a page.
#[derive(Clone, Copy, Debug, PartialEq, Eq, Structural)]
pub enum Claim {
    /// No such model, or no such page.
    Missing,
    /// Already there.
    Resident(u64),
    /// Someone else is reading it.
    Busy,
    /// Ours to read.
    Mine,
}

/// Claiming a page.
pub open spec fn claim_outcome(v: StoreView, id: u64, index: usize) -> (StoreView, Claim) {
    match find_id(v.models, id, 0) {
        None => (v, Claim::Missing),
        Some(i) => {
            let m = v.models[i];
            if index >= m.pages.len() {
                (v, Claim::Missing)
            } else {
                match m.pages[index as int] {
                    PageState::Resident(f) => (v.with_model(i, m.faulted()), Claim::Resident(f)),
                    PageState::Loading => (v, Claim::Busy),
                    PageState::Absent => (
                        v.with_model(i, m.faulted().with_page(index as int, PageState::Loading)),
                        Claim::Mine,
                    ),
                }
            }
        },
    }
}

/// Claim a page, or learn who has it.
pub fn claim(s: &mut Store, id: u64, index: usize) -> (r: Claim)
    ensures
        (final(s)@, r) == claim_outcome(old(s)@, id, index),
{
    let ghost v0 = s@;
    match s.index_of(id) {
        None => Claim::Missing,
        Some(i) => {
            assert(v0.models[i as int] == s.models@[i as int]@);
            if index >= s.models[i].pages.len() {
                return Claim::Missing;
            }
            match s.models[i].pages[index] {
                PageState::Resident(f) => {
                    s.models[i].faults = s.models[i].faults.wrapping_add(1);
                    proof {
                        let m = v0.models[i as int].faulted();
                        assert(s.models@[i as int]@ =~= m);
                        assert(s@.models =~= v0.models.update(i as int, m));
                        assert(s@ =~= v0.with_model(i as int, m));
                    }
                    Claim::Resident(f)
                },
                PageState::Loading => Claim::Busy,
                PageState::Absent => {
                    s.models[i].faults = s.models[i].faults.wrapping_add(1);
                    s.models[i].pages[index] = PageState::Loading;
                    proof {
                        let m = v0.models[i as int].faulted().with_page(
                            index as int,
                            PageState::Loading,
                        );
                        assert(s.models@[i as int]@ =~= m);
                        assert(s@.models =~= v0.models.update(i as int, m));
                        assert(s@ =~= v0.with_model(i as int, m));
                    }
                    Claim::Mine
                },
            }
        },
    }
}

/// The store once a claimed page has been read, or could not be.
pub open spec fn settled(v: StoreView, id: u64, index: usize, frame: Option<u64>) -> StoreView {
    match find_id(v.models, id, 0) {
        None => v,
        Some(i) => match frame {
            Some(f) => StoreView {
                order: v.order.push((i, index as int)),
                resident: v.resident.wrapping_add(1),
                ..v.with_model(i, v.models[i].with_page(index as int, PageState::Resident(f)))
            },
            None => v.with_model(i, v.models[i].with_page(index as int, PageState::Absent)),
        },
    }
}

/// Record the outcome of reading a claimed page.
fn settle(s: &mut Store, id: u64, index: usize, frame: Option<u64>)
    requires
        find_id(old(s)@.models, id, 0) matches Some(i) ==> index < old(s)@.models[i].pages.len(),
    ensures
        final(s)@ == settled(old(s)@, id, index, frame),
        frame is Some && find_id(old(s)@.models, id, 0) is Some ==> old(s)@.order.len() < u64::MAX,
{
    let ghost v0 = s@;
    match s.index_of(id) {
        None => {},
        Some(i) => {
            assert(v0.models[i as int] == s.models@[i as int]@);
            let p = match frame {
                Some(f) => {
                    s.order.push((i, index));
                    assert(s.order@.len() == s.order.len());
                    assert(s@.order =~= v0.order.push((i as int, index as int)));
                    s.resident = s.resident.wrapping_add(1);
                    PageState::Resident(f)
                },
                None => PageState::Absent,
            };
            s.models[i].pages[index] = p;
            proof {
                let m = v0.models[i as int].with_page(index as int, p);
                assert(s.models@[i as int]@ =~= m);
                assert(s@.models =~= v0.models.update(i as int, m));
                assert(s@ =~= settled(v0, id, index, frame));
            }
        },
    }
}

/// How many sectors of a page of a file hold bytes of the file.
pub open spec fn page_reads(size: int, index: int) -> nat {
    let left = size - index * 4096;
    if left <= 0 {
        0
    } else if left >= 4096 {
        8
    } else {
        crate::fs::sectors_for(left) as nat
    }
}

/// Byte `i` of a page of a file; zero past the end.
pub open spec fn page_byte(sectors: Seq<Seq<u8>>, start: u64, size: int, index: int, i: int) -> u8 {
    if index * 4096 + i < size {
        crate::fs::extent_byte(sectors, start, index * 4096 + i)
    } else {
        0
    }
}

/// Reading a page into a fresh frame, from one state of the device, the allocator
/// and memory to another.
pub open spec fn loaded(
    d0: crate::blk::DiskView,
    f0: Frames,
    r0: Ram,
    d1: crate::blk::DiskView,
    f1: Frames,
    r1: Ram,
    start: u64,
    size: usize,
    index: usize,
    frame: Option<u64>,
) -> bool {
    let (d2, v) = d0.after_reads(
        (start + index * 8) as u64,
        page_reads(size as int, index as int),
    );
    &&& crate::mm::paging::frames_in(f1, r1)
    &&& r1.base == r0.base
    &&& r1.bytes@.len() == r0.bytes@.len()
    &&& match crate::mm::frames::alloc_outcome(f0).0 {
        None => {
            &&& frame is None
            &&& d1 == d0
            &&& r1 == r0
            &&& f0.available() == 0
            &&& f1.available() == 0
            &&& forall|x: u64| #[trigger] f1.in_use(x) == f0.in_use(x)
        },
        Some(f) => {
            &&& d1 == d2
            &&& !f0.in_use(f)
            &&& f % 4096 == 0
            &&& r0.same_outside(r1, f as int, 4096)
            &&& forall|x: u64| x != f ==> #[trigger] f1.in_use(x) == f0.in_use(x)
            &&& match v {
                Ok(_) => {
                    &&& frame == Some(f)
                    &&& f1.in_use(f)
                    &&& f1.available() == f0.available() - 1
                    &&& forall|i: int|
                        0 <= i < 4096 ==> #[trigger] r1.byte(f + i) == page_byte(
                            d0.sectors,
                            start,
                            size as int,
                            index as int,
                            i,
                        )
                },
                Err(_) => {
                    &&& frame is None
                    &&& !f1.in_use(f)
                    &&& f1.available() == f0.available()
                },
            }
        },
    }
}

/// Read one page of a file into a fresh frame. The part of the page past the end
/// of the file is zero. Where the read fails the frame is given back.
#[verifier::rlimit(40)]
pub fn load_page(
    disk: &mut Disk,
    frames: &mut Frames,
    ram: &mut Ram,
    start_sector: u64,
    size: usize,
    index: usize,
) -> (r: Option<u64>)
    requires
        crate::mm::paging::frames_in(*old(frames), *old(ram)),
        start_sector + crate::fs::sectors_for(size as int) <= u64::MAX,
        index * 4096 < size,
    ensures
        loaded(
            old(disk)@,
            *old(frames),
            *old(ram),
            final(disk)@,
            *final(frames),
            *final(ram),
            start_sector,
            size,
            index,
            r,
        ),
{
    let ghost d0 = disk@;
    let ghost f0 = *frames;
    let ghost r0 = *ram;
    let got = alloc_frame(frames);
    proof {
        crate::mm::frames::a_frame_is_handed_out_once(f0, *frames);
    }
    let frame: u64 = match got {
        None => {
            return None;
        },
        Some(f) => f,
    };
    let ghost f1 = *frames;
    assert(f1.in_use(frame));
    ram.zero_page(frame);
    let left: usize = size - index * 4096;
    let ghost n = page_reads(size as int, index as int);
    assert(index * 8 + n <= crate::fs::sectors_for(size as int));
    let base: u64 = start_sector + index as u64 * 8;
    let mut sector: [u8; 512] = [0;512];
    let mut s: usize = 0;
    proof {
        crate::blk::readable_bounds(d0, base, n);
    }
    while s < 8 && s * 512 < left
        invariant
            s <= 8,
            d0 == old(disk)@,
            f0 == *old(frames),
            r0 == *old(ram),
            f1 == *frames,
            crate::mm::paging::frames_in(f1, *ram),
            f1.in_use(frame),
            left == size - index * 4096,
            left > 0,
            n == page_reads(size as int, index as int),
            base == start_sector + index * 8,
            base + n <= u64::MAX,
            s <= n,
            disk@ == d0.spent(s as nat),
            s <= d0.readable(base, n) <= n,
            crate::mm::frames::alloc_outcome(f0).0 == Some(frame),
            !f0.in_use(frame),
            forall|x: u64| x != frame ==> #[trigger] f1.in_use(x) == f0.in_use(x),
            f1.available() == f0.available() - 1,
            r0.same_outside(*ram, frame as int, 4096),
            forall|i: int|
                0 <= i < 4096 ==> #[trigger] ram.byte(frame + i) == if i < 512 * s {
                    page_byte(d0.sectors, start_sector, size as int, index as int, i)
                } else {
                    0
                },
        decreases 8 - s,
    {
        proof {
            disk.sectors_are_whole();
        }
        assert(s < n);
        proof {
            crate::blk::reading_on(d0, base, n, s as nat);
        }
        match disk.read_sector(base + s as u64, &mut sector) {
            Err(_) => {
                free(frames, frame);
                proof {
                    crate::mm::frames::a_freed_frame_is_available_again(f1, *frames, frame);
                }
                return None;
            },
            Ok(_) => {},
        }
        let rest: usize = left - s * 512;
        let take: usize = if rest < 512 {
            rest
        } else {
            512
        };
        let ghost before = *ram;
        let piece = slice_subrange(&sector, 0, take);
        ram.write_bytes(frame + s as u64 * 512, piece);
        proof {
            assert forall|i: int| 0 <= i < 4096 implies #[trigger] ram.byte(frame + i) == (if i
                < 512 * (s + 1) {
                page_byte(d0.sectors, start_sector, size as int, index as int, i)
            } else {
                0
            }) by {
                if 512 * s <= i < 512 * s + take {
                    let o = index * 4096 + i;
                    assert(o / 512 == index * 8 + s && o % 512 == i - 512 * s);
                    assert(ram.byte(frame + i) == piece@[i - 512 * s]);
                } else {
                    assert(before.holds(frame + i, 1));
                    assert(ram.byte(frame + i) == before.byte(frame + i));
                }
            }
            assert(r0.same_outside(*ram, frame as int, 4096)) by {
                assert forall|q: int|
                    r0.holds(q, 1) && !(frame <= q < frame + 4096) implies #[trigger] ram.byte(q)
                    == r0.byte(q) by {
                    assert(before.byte(q) == r0.byte(q));
                }
            }
        }
        s = s + 1;
    }
    proof {
        assert(s == n);
        assert(d0.after_reads(base, n) == (disk@, Ok::<(), &'static str>(())));
        assert forall|i: int| 0 <= i < 4096 implies #[trigger] ram.byte(frame + i) == page_byte(
            d0.sectors,
            start_sector,
            size as int,
            index as int,
            i,
        ) by {
            if i >= 512 * s {
                assert(index * 4096 + i >= size);
            }
        }
    }
    Some(frame)
}

/// Showing a frame to a process at `va`, read-only.
pub open spec fn shown(
    p0: Seq<Process>,
    f0: Frames,
    r0: Ram,
    p1: Seq<Process>,
    f1: Frames,
    r1: Ram,
    pid: usize,
    va: u64,
    frame: u64,
    ok: bool,
) -> bool {
    if pid >= p0.len() {
        !ok && p1 == p0 && f1 == f0 && r1 == r0
    } else {
        let root = p0[pid as int].space.root as int;
        &&& crate::proc::one_grew(p0, r0, f0, p1, r1, f1, pid as int)
        &&& p1[pid as int] == (Process { space: p1[pid as int].space, ..p0[pid as int] })
        &&& if va % 4096 != 0 || frame % 4096 != 0 {
            !ok && p1 == p0 && f1 == f0 && r1 == r0
        } else if ok {
            crate::mm::paging::mapped_upto(r0, r1, root, va, frame, Perm::UserReadOnly, 1)
        } else {
            f1.available() == 0 && p1[pid as int].space.owned@.len()
                <= p0[pid as int].space.owned@.len() + 2 && crate::mm::paging::mapped_upto(
                r0,
                r1,
                root,
                va,
                frame,
                Perm::UserReadOnly,
                0,
            )
        }
    }
}

fn map_into(
    table: &mut Table,
    frames: &mut Frames,
    ram: &mut Ram,
    pid: usize,
    va: u64,
    frame: u64,
) -> (ok: bool)
    requires
        crate::proc::spaces_ok(old(table).procs@, *old(ram), *old(frames)),
        va + 4096 <= u64::MAX,
        frame + 4096 <= crate::mm::paging::USER_LIMIT,
    ensures
        crate::proc::spaces_ok(final(table).procs@, *final(ram), *final(frames)),
        shown(
            old(table).procs@,
            *old(frames),
            *old(ram),
            final(table).procs@,
            *final(frames),
            *final(ram),
            pid,
            va,
            frame,
            ok,
        ),
{
    if pid >= table.procs.len() {
        return false;
    }
    let ghost p0 = table.procs@;
    let ghost r0 = *ram;
    let ghost f0 = *frames;
    let ghost root = p0[pid as int].space.root as int;
    let r = table.procs[pid].space.map(frames, ram, va, frame, 1, Perm::UserReadOnly);
    proof {
        if va % 4096 != 0 || frame % 4096 != 0 {
            assert(table.procs@ =~= p0);
        } else {
            let n = choose|n: int|
                {
                    &&& 0 <= n <= 1
                    &&& r == (if n == 1 {
                        Ok::<(), &'static str>(())
                    } else {
                        Err("out of frames for page tables")
                    })
                    &&& n < 1 ==> frames.available() == 0
                    &&& #[trigger] crate::mm::paging::mapped_upto(
                        r0,
                        *ram,
                        root,
                        va,
                        frame,
                        Perm::UserReadOnly,
                        n,
                    )
                };
            assert(n == 0 || n == 1);
        }
        assert(crate::proc::one_grew(p0, r0, f0, table.procs@, *ram, *frames, pid as int));
        crate::proc::processes_are_isolated(p0, r0, f0, table.procs@, *ram, *frames, pid as int);
    }
    match r {
        Ok(_) => true,
        Err(_) => false,
    }
}

/// How a fault on a page of a model ends.
#[derive(Clone, Copy, Debug, PartialEq, Eq, Structural)]
pub enum Fault {
    Served,
    Failed,
    /// Someone else is reading the page: wait, and ask again.
    Busy,
}

/// Every resident page is behind a frame in use that no process owns and no other
/// page is behind.
pub open spec fn residents_ok(models: Seq<ModelView>, procs: Seq<Process>, frames: Frames) -> bool {
    &&& forall|i: int, j: int|
        #![trigger models[i].pages[j]]
        0 <= i < models.len() && 0 <= j < models[i].pages.len() ==> (
        models[i].pages[j] matches PageState::Resident(f) ==> frames.in_use(f) && unowned(procs, f))
    &&& forall|i: int, j: int, k: int, l: int|
        #![trigger models[i].pages[j], models[k].pages[l]]
        0 <= i < models.len() && 0 <= j < models[i].pages.len() && 0 <= k < models.len() && 0 <= l
            < models[k].pages.len() && models[i].pages[j] is Resident && models[i].pages[j]
            == models[k].pages[l] ==> i == k && j == l
}

/// No process owns the frame.
pub open spec fn unowned(procs: Seq<Process>, f: u64) -> bool {
    forall|p: int| 0 <= p < procs.len() ==> !(#[trigger] procs[p]).space.owned@.contains(f)
}

proof fn lemma_unowned_after_growth(
    p0: Seq<Process>,
    r0: Ram,
    f0: Frames,
    p1: Seq<Process>,
    r1: Ram,
    f1: Frames,
    pid: int,
    f: u64,
)
    requires
        0 <= pid < p0.len(),
        crate::proc::one_grew(p0, r0, f0, p1, r1, f1, pid),
        f0.in_use(f),
        unowned(p0, f),
    ensures
        unowned(p1, f),
        f1.in_use(f),
{
    assert forall|p: int| 0 <= p < p1.len() implies !(#[trigger] p1[p]).space.owned@.contains(
        f,
    ) by {
        if p == pid {
            let a0 = p0[pid].space;
            let a1 = p1[pid].space;
            if a1.owned@.contains(f) {
                let k = choose|k: int| 0 <= k < a1.owned@.len() && a1.owned@[k] == f;
                if k < a0.owned@.len() {
                    assert(a1.owned@.take(a0.owned@.len() as int)[k] == a0.owned@[k]);
                    assert(a0.owned@.contains(f));
                } else {
                    assert(!f0.in_use(a1.owned@[k]));
                }
            }
        } else {
            assert(p1[p] == p0[p]);
        }
    }
}

proof fn lemma_residents_after_growth(
    models: Seq<ModelView>,
    p0: Seq<Process>,
    r0: Ram,
    f0: Frames,
    p1: Seq<Process>,
    r1: Ram,
    f1: Frames,
    pid: usize,
    va: u64,
    frame: u64,
    ok: bool,
)
    requires
        residents_ok(models, p0, f0),
        shown(p0, f0, r0, p1, f1, r1, pid, va, frame, ok),
    ensures
        residents_ok(models, p1, f1),
{
    if pid < p0.len() {
        assert forall|i: int, j: int|
            #![trigger models[i].pages[j]]
            0 <= i < models.len() && 0 <= j < models[i].pages.len() implies (
        models[i].pages[j] matches PageState::Resident(f) ==> f1.in_use(f) && unowned(p1, f)) by {
            match models[i].pages[j] {
                PageState::Resident(f) => {
                    lemma_unowned_after_growth(p0, r0, f0, p1, r1, f1, pid as int, f);
                },
                _ => {},
            }
        }
    }
}

proof fn lemma_settled_residents(
    v: StoreView,
    procs: Seq<Process>,
    f0: Frames,
    f1: Frames,
    id: u64,
    index: usize,
    frame: Option<u64>,
)
    requires
        residents_ok(v.models, procs, f0),
        find_id(v.models, id, 0) matches Some(i) ==> index < v.models[i].pages.len(),
        match frame {
            Some(f) => !f0.in_use(f) && f1.in_use(f) && unowned(procs, f),
            None => true,
        },
        forall|x: u64| f0.in_use(x) ==> #[trigger] f1.in_use(x),
    ensures
        residents_ok(settled(v, id, index, frame).models, procs, f1),
{
    let w = settled(v, id, index, frame);
    lemma_found_id(v.models, id, 0);
    assert forall|i: int, j: int|
        #![trigger w.models[i].pages[j]]
        0 <= i < w.models.len() && 0 <= j < w.models[i].pages.len() implies (
    w.models[i].pages[j] matches PageState::Resident(f) ==> f1.in_use(f) && unowned(procs, f)) by {
        let old_page = v.models[i].pages[j];
    }
    assert forall|i: int, j: int, k: int, l: int|
        #![trigger w.models[i].pages[j], w.models[k].pages[l]]
        0 <= i < w.models.len() && 0 <= j < w.models[i].pages.len() && 0 <= k < w.models.len() && 0
            <= l < w.models[k].pages.len() && w.models[i].pages[j] is Resident
            && w.models[i].pages[j] == w.models[k].pages[l] implies i == k && j == l by {
        let a = v.models[i].pages[j];
        let b = v.models[k].pages[l];
    }
}

proof fn lemma_claimed_residents(v: StoreView, procs: Seq<Process>, frames: Frames, id: u64, index: usize)
    requires
        residents_ok(v.models, procs, frames),
    ensures
        residents_ok(claim_outcome(v, id, index).0.models, procs, frames),
        v.wf() ==> claim_outcome(v, id, index).0.wf(),
        claim_outcome(v, id, index).1 is Mine ==> (find_id(
            claim_outcome(v, id, index).0.models,
            id,
            0,
        ) == find_id(v.models, id, 0)),
{
    let w = claim_outcome(v, id, index).0;
    lemma_found_id(v.models, id, 0);
    assert forall|i: int, j: int|
        #![trigger w.models[i].pages[j]]
        0 <= i < w.models.len() && 0 <= j < w.models[i].pages.len() implies (
    w.models[i].pages[j] matches PageState::Resident(f) ==> frames.in_use(f) && unowned(
        procs,
        f,
    )) by {
        let a = v.models[i].pages[j];
    }
    assert forall|i: int, j: int, k: int, l: int|
        #![trigger w.models[i].pages[j], w.models[k].pages[l]]
        0 <= i < w.models.len() && 0 <= j < w.models[i].pages.len() && 0 <= k < w.models.len() && 0
            <= l < w.models[k].pages.len() && w.models[i].pages[j] is Resident
            && w.models[i].pages[j] == w.models[k].pages[l] implies i == k && j == l by {
        let a = v.models[i].pages[j];
        let b = v.models[k].pages[l];
    }
    match find_id(v.models, id, 0) {
        Some(i) => {
            lemma_same_ids(v.models, w.models, id, 0);
            if v.wf() {
                lemma_replaced(v, i, w.models[i]);
                assert(w =~= v.with_model(i, w.models[i]));
            }
        },
        None => {},
    }
}

proof fn lemma_same_ids(a: Seq<ModelView>, b: Seq<ModelView>, id: u64, i: int)
    requires
        a.len() == b.len(),
        0 <= i,
        forall|k: int| 0 <= k < a.len() ==> (#[trigger] a[k]).id == b[k].id,
    ensures
        find_id(a, id, i) == find_id(b, id, i),
    decreases a.len() - i,
{
    if i < a.len() {
        assert(a[i].id == b[i].id);
        lemma_same_ids(a, b, id, i + 1);
    }
}

/// Everything serving a fault does to the store, given what the read and the
/// mapping came to.
pub open spec fn fault_store(v: StoreView, id: u64, index: usize, frame: Option<u64>) -> StoreView {
    let (w, c) = claim_outcome(v, id, index);
    match c {
        Claim::Missing => w,
        Claim::Busy => w,
        Claim::Resident(_) => StoreView { shared_hits: w.shared_hits.wrapping_add(1), ..w },
        Claim::Mine => settled(w, id, index, frame),
    }
}

/// Everything that a fault may touch.
#[verifier::ext_equal]
pub struct World {
    pub store: StoreView,
    pub disk: crate::blk::DiskView,
    pub frames: Frames,
    pub ram: Ram,
    pub procs: Seq<Process>,
}

impl World {
    /// The store is in order, address spaces are sound, and resident pages have frames of
    /// their own.
    pub open spec fn ok(self) -> bool {
        &&& self.store.wf()
        &&& crate::proc::spaces_ok(self.procs, self.ram, self.frames)
        &&& residents_ok(self.store.models, self.procs, self.frames)
    }
}

/// How a fault on the page of model `id` that covers `offset`, to be shown to `pid` at
/// `va`, may end: with `w1` where there was `w0`.
pub open spec fn faulted(
    w0: World,
    w1: World,
    id: u64,
    offset: usize,
    pid: usize,
    va: u64,
    r: Fault,
) -> bool {
    let index = (offset / 4096) as usize;
    match claim_outcome(w0.store, id, index).1 {
        Claim::Missing => r == Fault::Failed && w1 == w0,
        Claim::Busy => r == Fault::Busy && w1 == w0,
        Claim::Resident(frame) => {
            &&& w1.store == fault_store(w0.store, id, index, None)
            &&& w1.disk == w0.disk
            &&& r != Fault::Busy
            &&& shown(
                w0.procs,
                w0.frames,
                w0.ram,
                w1.procs,
                w1.frames,
                w1.ram,
                pid,
                va,
                frame,
                r == Fault::Served,
            )
        },
        Claim::Mine => {
            let m = w0.store.models[find_id(w0.store.models, id, 0)->0];
            exists|f1: Frames, r1: Ram, frame: Option<u64>|
                {
                    &&& #[trigger] loaded(
                        w0.disk,
                        w0.frames,
                        w0.ram,
                        w1.disk,
                        f1,
                        r1,
                        m.start_sector,
                        m.size,
                        index,
                        frame,
                    )
                    &&& w1.store == fault_store(w0.store, id, index, frame)
                    &&& match frame {
                        None => {
                            &&& r == Fault::Failed
                            &&& w1.frames == f1
                            &&& w1.ram == r1
                            &&& w1.procs == w0.procs
                        },
                        Some(frame) => r != Fault::Busy && shown(
                            w0.procs,
                            f1,
                            r1,
                            w1.procs,
                            w1.frames,
                            w1.ram,
                            pid,
                            va,
                            frame,
                            r == Fault::Served,
                        ),
                    }
                }
        },
    }
}

/// The first of a model's mappings at or after the `k`th in which `pid` has `va`.
pub open spec fn mapping_of(m: ModelView, pid: usize, va: u64, k: int) -> Option<int>
    decreases m.mappings.len() - k,
{
    if k >= m.mappings.len() {
        None
    } else if m.mappings[k].pid == pid && m.mappings[k].base <= va < m.mappings[k].base + m.size {
        Some(k)
    } else {
        mapping_of(m, pid, va, k + 1)
    }
}

/// The first model at or after the `i`th that `pid` has at `va`, and how far into it that
/// is.
pub open spec fn located(models: Seq<ModelView>, pid: usize, va: u64, i: int) -> Option<(u64, int)>
    decreases models.len() - i,
{
    if i >= models.len() {
        None
    } else {
        match mapping_of(models[i], pid, va, 0) {
            Some(k) => Some((models[i].id, va - models[i].mappings[k].base)),
            None => located(models, pid, va, i + 1),
        }
    }
}

/// Which model a process has at an address, and how far into it that is.
pub fn locate(s: &Store, pid: usize, va: u64) -> (r: Option<(u64, usize)>)
    ensures
        match r {
            Some((id, offset)) => located(s@.models, pid, va, 0) == Some((id, offset as int)),
            None => located(s@.models, pid, va, 0) is None,
        },
{
    let mut i: usize = 0;
    while i < s.models.len()
        invariant
            i <= s.models@.len(),
            located(s@.models, pid, va, 0) == located(s@.models, pid, va, i as int),
        decreases s.models@.len() - i,
    {
        let m = &s.models[i];
        assert(s@.models[i as int] == m@);
        let mut k: usize = 0;
        while k < m.mappings.len()
            invariant
                i < s.models@.len(),
                k <= m.mappings@.len(),
                m@ == s@.models[i as int],
                located(s@.models, pid, va, 0) == located(s@.models, pid, va, i as int),
                mapping_of(m@, pid, va, 0) == mapping_of(m@, pid, va, k as int),
            decreases m.mappings@.len() - k,
        {
            let p = m.mappings[k];
            if p.pid == pid && p.base <= va && va - p.base < m.size as u64 {
                return Some((m.id, (va - p.base) as usize));
            }
            k = k + 1;
        }
        i = i + 1;
    }
    None
}

/// Bring in the page of model `id` that covers `offset`, and map it at `va` for
/// `pid`.
///
/// A page that is there already costs a page-table entry and nothing else, because
/// another process paid to read it.
pub fn fault(
    s: &mut Store,
    disk: &mut Disk,
    frames: &mut Frames,
    ram: &mut Ram,
    table: &mut Table,
    id: u64,
    offset: usize,
    pid: usize,
    va: u64,
) -> (r: Fault)
    requires
        old(s)@.wf(),
        crate::proc::spaces_ok(old(table).procs@, *old(ram), *old(frames)),
        residents_ok(old(s)@.models, old(table).procs@, *old(frames)),
        va + 4096 <= u64::MAX,
    ensures
        final(s)@.wf(),
        crate::proc::spaces_ok(final(table).procs@, *final(ram), *final(frames)),
        residents_ok(final(s)@.models, final(table).procs@, *final(frames)),
        faulted(
            World {
                store: old(s)@,
                disk: old(disk)@,
                frames: *old(frames),
                ram: *old(ram),
                procs: old(table).procs@,
            },
            World {
                store: final(s)@,
                disk: final(disk)@,
                frames: *final(frames),
                ram: *final(ram),
                procs: final(table).procs@,
            },
            id,
            offset,
            pid,
            va,
            r,
        ),
{
    let index: usize = offset / 4096;
    let ghost v0 = s@;
    let ghost d0 = disk@;
    let ghost f0 = *frames;
    let ghost r0 = *ram;
    let ghost p0 = table.procs@;
    proof {
        lemma_found_id(v0.models, id, 0);
        lemma_claimed_residents(v0, p0, f0, id, index);
    }
    let c = claim(s, id, index);
    let ghost v1 = s@;
    match c {
        Claim::Missing => Fault::Failed,
        Claim::Busy => Fault::Busy,
        Claim::Resident(frame) => {
            s.shared_hits = s.shared_hits.wrapping_add(1);
            proof {
                let m = v0.models[find_id(v0.models, id, 0)->0];
                assert(m.pages[index as int] == PageState::Resident(frame));
                assert(f0.in_use(frame));
                assert(s@.models =~= v1.models);
            }
            let ok = map_into(table, frames, ram, pid, va, frame);
            proof {
                lemma_residents_after_growth(
                    s@.models,
                    p0,
                    r0,
                    f0,
                    table.procs@,
                    *ram,
                    *frames,
                    pid,
                    va,
                    frame,
                    ok,
                );
            }
            if ok {
                Fault::Served
            } else {
                Fault::Failed
            }
        },
        Claim::Mine => {
            let at = s.index_of(id);
            let (start_sector, size) = match at {
                None => {
                    assert(false);
                    return Fault::Failed;
                },
                Some(i) => {
                    assert(v1.models[i as int] == s.models@[i as int]@);
                    (s.models[i].start_sector, s.models[i].size)
                },
            };
            assert(v0.models[find_id(v0.models, id, 0)->0].wf());
            let got = load_page(disk, frames, ram, start_sector, size, index);
            let ghost f1 = *frames;
            let ghost r1 = *ram;
            proof {
                match crate::mm::frames::alloc_outcome(f0).0 {
                    Some(f) => {
                        assert forall|x: u64| f0.in_use(x) implies #[trigger] f1.in_use(x) by {}
                        crate::proc::fresh_frames_disturb_no_process(p0, r0, f0, r1, f1, f);
                        lemma_fresh_is_unowned(p0, r0, f0, f);
                    },
                    None => {
                        assert forall|x: u64| f0.in_use(x) implies #[trigger] f1.in_use(x) by {}
                        lemma_spaces_same_memory(p0, r0, f0, f1);
                    },
                }
            }
            let ghost d1 = disk@;
            proof {
                let m = v0.models[find_id(v0.models, id, 0)->0];
                assert(start_sector == m.start_sector && size == m.size);
                assert(loaded(d0, f0, r0, d1, f1, r1, m.start_sector, m.size, index, got));
            }
            settle(s, id, index, got);
            assert(s@ == fault_store(v0, id, index, got));
            proof {
                lemma_settled_residents(v1, p0, f0, f1, id, index, got);
                lemma_found_id(v1.models, id, 0);
                let i = find_id(v1.models, id, 0)->0;
                assert(v1.models[i].pages[index as int] is Loading);
                match got {
                    Some(f) => {
                        lemma_listed_last(v1, i, index as int, f);
                    },
                    None => {
                        lemma_replaced(
                            v1,
                            i,
                            v1.models[i].with_page(index as int, PageState::Absent),
                        );
                    },
                }
            }
            let ok = match got {
                None => false,
                Some(frame) => {
                    assert(f1.in_use(frame));
                    let shown_to = map_into(table, frames, ram, pid, va, frame);
                    proof {
                        lemma_residents_after_growth(
                            s@.models,
                            p0,
                            r1,
                            f1,
                            table.procs@,
                            *ram,
                            *frames,
                            pid,
                            va,
                            frame,
                            shown_to,
                        );
                    }
                    shown_to
                },
            };
            let r = if ok {
                Fault::Served
            } else {
                Fault::Failed
            };
            proof {
                let w0 = World { store: v0, disk: d0, frames: f0, ram: r0, procs: p0 };
                let w1 = World {
                    store: s@,
                    disk: disk@,
                    frames: *frames,
                    ram: *ram,
                    procs: table.procs@,
                };
                lemma_read_in(w0, w1, id, offset, pid, va, r, f1, r1, got);
            }
            r
        },
    }
}

/// A fault that set out to read its page ended in one of the ways it may.
proof fn lemma_read_in(
    w0: World,
    w1: World,
    id: u64,
    offset: usize,
    pid: usize,
    va: u64,
    r: Fault,
    f1: Frames,
    r1: Ram,
    frame: Option<u64>,
)
    requires
        claim_outcome(w0.store, id, (offset / 4096) as usize).1 is Mine,
        ({
            let m = w0.store.models[find_id(w0.store.models, id, 0)->0];
            let index = (offset / 4096) as usize;
            loaded(
                w0.disk,
                w0.frames,
                w0.ram,
                w1.disk,
                f1,
                r1,
                m.start_sector,
                m.size,
                index,
                frame,
            )
        }),
        w1.store == fault_store(w0.store, id, (offset / 4096) as usize, frame),
        match frame {
            None => r == Fault::Failed && w1.frames == f1 && w1.ram == r1 && w1.procs == w0.procs,
            Some(frame) => r != Fault::Busy && shown(
                w0.procs,
                f1,
                r1,
                w1.procs,
                w1.frames,
                w1.ram,
                pid,
                va,
                frame,
                r == Fault::Served,
            ),
        },
    ensures
        faulted(w0, w1, id, offset, pid, va, r),
{
}

pub(crate) proof fn lemma_fresh_is_unowned(procs: Seq<Process>, ram: Ram, frames: Frames, f: u64)
    requires
        crate::proc::spaces_ok(procs, ram, frames),
        !frames.in_use(f),
    ensures
        unowned(procs, f),
{
    assert forall|p: int| 0 <= p < procs.len() implies !(#[trigger] procs[p]).space.owned@.contains(
        f,
    ) by {
        let s = procs[p].space;
        if s.owned@.contains(f) {
            let k = choose|k: int| 0 <= k < s.owned@.len() && s.owned@[k] == f;
            assert(frames.in_use(s.owned@[k]));
        }
    }
}

proof fn lemma_spaces_same_memory(procs: Seq<Process>, ram: Ram, f0: Frames, f1: Frames)
    requires
        crate::proc::spaces_ok(procs, ram, f0),
        crate::mm::paging::frames_in(f1, ram),
        forall|x: u64| f0.in_use(x) ==> #[trigger] f1.in_use(x),
    ensures
        crate::proc::spaces_ok(procs, ram, f1),
{
    assert forall|i: int| 0 <= i < procs.len() implies (#[trigger] procs[i]).space.wf(ram, f1) by {
        let s = procs[i].space;
        assert forall|k: int| 0 <= k < s.owned@.len() implies f1.in_use(#[trigger] s.owned@[k]) by {
            assert(f0.in_use(s.owned@[k]));
        }
    }
}

// ---- reclaim -----------------------------------------------------------------------

/// The frame behind the newest resident page.
pub open spec fn newest_frame(v: StoreView) -> u64 {
    v.models[v.order.last().0].pages[v.order.last().1]->Resident_0
}

/// The store without its newest resident page.
pub open spec fn without_newest(v: StoreView) -> StoreView {
    let (i, j) = v.order.last();
    let m = v.models[i];
    StoreView {
        models: v.models.update(
            i,
            ModelView {
                reclaimed: m.reclaimed.wrapping_add(1),
                ..m.with_page(j, PageState::Absent)
            },
        ),
        order: v.order.drop_last(),
        resident: (v.resident - 1) as u64,
        ..v
    }
}

/// The store after dropping the `want` newest resident pages, or all there are, and the
/// frames that were behind them, newest first.
pub open spec fn reclaimed(v: StoreView, want: nat) -> (StoreView, Seq<u64>)
    decreases want,
{
    if want == 0 || v.order.len() == 0 {
        (v, Seq::empty())
    } else {
        let (w, fs) = reclaimed(without_newest(v), (want - 1) as nat);
        (w, seq![newest_frame(v)] + fs)
    }
}

/// Whether a page that was resident no longer is.
pub open spec fn dropped(a: Seq<PageState>, b: Seq<PageState>, j: int) -> bool {
    0 <= j < a.len() && a[j] is Resident && b[j] is Absent
}

/// Whether path `q` of process `pid` showed a page of a model that was dropped.
pub open spec fn hidden_in(
    a: Seq<PageState>,
    b: Seq<PageState>,
    mappings: Seq<Mapping>,
    pid: int,
    q: Path,
) -> bool {
    exists|j: int, k: int|
        #![trigger a[j], mappings[k]]
        dropped(a, b, j) && 0 <= k < mappings.len() && mappings[k].pid == pid && q
            == crate::mm::paging::path_of((mappings[k].base + j * 4096) as u64)
}

/// Whether path `q` of process `pid` showed a page that was dropped.
pub open spec fn hidden(a: Seq<ModelView>, b: Seq<ModelView>, pid: int, q: Path) -> bool {
    exists|i: int|
        0 <= i < a.len() && hidden_in(
            (#[trigger] a[i]).pages,
            b[i].pages,
            a[i].mappings,
            pid,
            q,
        )
}

/// Whether `q` lies in a page table of some process.
pub open spec fn in_tables(procs: Seq<Process>, q: int) -> bool {
    exists|p: int|
        0 <= p < procs.len() && crate::mm::paging::in_pages((#[trigger] procs[p]).space.tables@, q)
}

/// Memory is the same but for page tables.
pub open spec fn same_but_tables(procs: Seq<Process>, r0: Ram, r1: Ram) -> bool {
    &&& r1.base == r0.base
    &&& r1.bytes@.len() == r0.bytes@.len()
    &&& forall|q: int| r0.holds(q, 1) && !in_tables(procs, q) ==> #[trigger] r1.byte(q) == r0.byte(q)
}

/// Every page of the model has an address in every process that has it mapped.
pub open spec fn mappings_fit(m: ModelView) -> bool {
    forall|k: int|
        0 <= k < m.mappings.len() ==> (#[trigger] m.mappings[k]).base + m.pages.len() * 4096
            <= u64::MAX
}

/// Whether page `index` of a model shows at path `q` of process `pid` through one
/// of the first `n` mappings.
pub open spec fn shows_at(
    mappings: Seq<Mapping>,
    n: int,
    index: int,
    pid: int,
    q: Path,
) -> bool {
    exists|k: int|
        0 <= k < n && (#[trigger] mappings[k]).pid == pid && q == crate::mm::paging::path_of(
            (mappings[k].base + index * 4096) as u64,
        )
}

proof fn lemma_one_page(va: u64, q: Path)
    ensures
        crate::mm::paging::on_pages(va, 1, q) == (q == crate::mm::paging::path_of(va)),
{
    if q == crate::mm::paging::path_of(va) {
        assert(q == crate::mm::paging::path_of((va + 0 * 4096) as u64));
    }
}

/// Take a page out of every process that has the model mapped.
fn unmap_everywhere(
    table: &Table,
    frames: &Frames,
    ram: &mut Ram,
    mappings: &Vec<Mapping>,
    index: usize,
)
    requires
        crate::proc::spaces_ok(table.procs@, *old(ram), *frames),
        forall|k: int|
            0 <= k < mappings@.len() ==> (#[trigger] mappings@[k]).base + (index + 1) * 4096
                <= u64::MAX,
    ensures
        crate::proc::spaces_ok(table.procs@, *final(ram), *frames),
        same_but_tables(table.procs@, *old(ram), *final(ram)),
        forall|p: int, q: Path|
            0 <= p < table.procs@.len() && crate::mm::paging::path_ok(q)
                ==> #[trigger] table.procs@[p].space.leaf(*final(ram), q) == (if shows_at(
                mappings@,
                mappings@.len() as int,
                index as int,
                p,
                q,
            ) {
                None
            } else {
                table.procs@[p].space.leaf(*old(ram), q)
            }),
{
    let ghost procs = table.procs@;
    let ghost r0 = *ram;
    let mut k: usize = 0;
    while k < mappings.len()
        invariant
            k <= mappings@.len(),
            procs == table.procs@,
            r0 == *old(ram),
            forall|i: int|
                0 <= i < mappings@.len() ==> (#[trigger] mappings@[i]).base + (index + 1) * 4096
                    <= u64::MAX,
            crate::proc::spaces_ok(procs, *ram, *frames),
            same_but_tables(procs, r0, *ram),
            forall|p: int, q: Path|
                0 <= p < procs.len() && crate::mm::paging::path_ok(q)
                    ==> #[trigger] procs[p].space.leaf(*ram, q) == (if shows_at(
                    mappings@,
                    k as int,
                    index as int,
                    p,
                    q,
                ) {
                    None
                } else {
                    procs[p].space.leaf(r0, q)
                }),
        decreases mappings@.len() - k,
    {
        let m = mappings[k];
        let ghost r1 = *ram;
        assert(m.base + (index + 1) * 4096 <= u64::MAX);
        if m.pid < table.procs.len() {
            let va: u64 = m.base + index as u64 * 4096;
            let space = &table.procs[m.pid].space;
            assert(procs[m.pid as int].space.wf(r1, *frames));
            space.unmap(ram, va, 1);
            proof {
                lemma_unmapped_one(procs, *frames, r1, *ram, m.pid as int, va);
                lemma_same_but_tables_trans(procs, r0, r1, *ram);
            }
        }
        proof {
            assert forall|p: int, q: Path|
                0 <= p < procs.len() && crate::mm::paging::path_ok(q) implies
                #[trigger] procs[p].space.leaf(*ram, q) == (if shows_at(
                mappings@,
                k + 1,
                index as int,
                p,
                q,
            ) {
                None
            } else {
                procs[p].space.leaf(r0, q)
            }) by {
                lemma_shows_step(mappings@, k as int, index as int, p, q);
                assert(procs[p].space.leaf(r1, q) == (if shows_at(
                    mappings@,
                    k as int,
                    index as int,
                    p,
                    q,
                ) {
                    None
                } else {
                    procs[p].space.leaf(r0, q)
                }));
            }
        }
        k = k + 1;
    }
}

proof fn lemma_shows_step(mappings: Seq<Mapping>, k: int, index: int, pid: int, q: Path)
    requires
        0 <= k < mappings.len(),
    ensures
        shows_at(mappings, k + 1, index, pid, q) == (shows_at(mappings, k, index, pid, q) || (
        mappings[k].pid == pid && q == crate::mm::paging::path_of(
            (mappings[k].base + index * 4096) as u64,
        ))),
{
    if shows_at(mappings, k + 1, index, pid, q) {
        let i = choose|i: int|
            0 <= i < k + 1 && (#[trigger] mappings[i]).pid == pid && q
                == crate::mm::paging::path_of((mappings[i].base + index * 4096) as u64);
        if i < k {
            assert(shows_at(mappings, k, index, pid, q));
        }
    }
    if shows_at(mappings, k, index, pid, q) {
        let i = choose|i: int|
            0 <= i < k && (#[trigger] mappings[i]).pid == pid && q == crate::mm::paging::path_of(
                (mappings[i].base + index * 4096) as u64,
            );
        assert(mappings[i].pid == pid);
    }
}

proof fn lemma_same_but_tables_trans(procs: Seq<Process>, r0: Ram, r1: Ram, r2: Ram)
    requires
        same_but_tables(procs, r0, r1),
        same_but_tables(procs, r1, r2),
    ensures
        same_but_tables(procs, r0, r2),
{
    assert forall|q: int| r0.holds(q, 1) && !in_tables(procs, q) implies #[trigger] r2.byte(q)
        == r0.byte(q) by {
        assert(r1.byte(q) == r0.byte(q));
    }
}

proof fn lemma_unmapped_one(
    procs: Seq<Process>,
    frames: Frames,
    r0: Ram,
    r1: Ram,
    pid: int,
    va: u64,
)
    requires
        crate::proc::spaces_ok(procs, r0, frames),
        0 <= pid < procs.len(),
        r1.base == r0.base,
        r1.bytes@.len() == r0.bytes@.len(),
        crate::mm::paging::tree(r1, procs[pid].space.root as int, procs[pid].space.tables@),
        crate::mm::paging::kept_outside_tables(r0, r1, procs[pid].space.tables@),
        crate::mm::paging::unmapped_upto(r0, r1, procs[pid].space.root as int, va, 1),
    ensures
        crate::proc::spaces_ok(procs, r1, frames),
        same_but_tables(procs, r0, r1),
        forall|p: int, q: Path|
            0 <= p < procs.len() && crate::mm::paging::path_ok(q)
                ==> #[trigger] procs[p].space.leaf(r1, q) == (if p == pid && q
                == crate::mm::paging::path_of(va) {
                None
            } else {
                procs[p].space.leaf(r0, q)
            }),
{
    let s = procs[pid].space;
    assert(procs[pid].space.wf(r0, frames));
    crate::mm::paging::unmapping_keeps_the_space(s, r0, r1, frames);
    assert(crate::proc::one_grew(procs, r0, frames, procs, r1, frames, pid));
    crate::proc::processes_are_isolated(procs, r0, frames, procs, r1, frames, pid);
    assert forall|q: int| r0.holds(q, 1) && !in_tables(procs, q) implies #[trigger] r1.byte(q)
        == r0.byte(q) by {
        if crate::mm::paging::in_pages(s.tables@, q) {
            assert(crate::mm::paging::in_pages(procs[pid].space.tables@, q));
        }
    }
    assert forall|p: int, q: Path|
        0 <= p < procs.len() && crate::mm::paging::path_ok(q) implies
        #[trigger] procs[p].space.leaf(r1, q) == (if p == pid && q == crate::mm::paging::path_of(
        va,
    ) {
        None
    } else {
        procs[p].space.leaf(r0, q)
    }) by {
        lemma_one_page(va, q);
        if p == pid {
            assert(crate::mm::paging::leaf(r1, s.root as int, q) == (
            if crate::mm::paging::on_pages(va, 1, q) {
                None
            } else {
                crate::mm::paging::leaf(r0, s.root as int, q)
            }));
        }
    }
}

proof fn lemma_spaces_after_free(
    procs: Seq<Process>,
    ram: Ram,
    f0: Frames,
    f1: Frames,
    x: u64,
)
    requires
        crate::proc::spaces_ok(procs, ram, f0),
        crate::mm::paging::frames_in(f1, ram),
        unowned(procs, x),
        forall|y: u64| y != x ==> #[trigger] f1.in_use(y) == f0.in_use(y),
    ensures
        crate::proc::spaces_ok(procs, ram, f1),
{
    assert forall|i: int| 0 <= i < procs.len() implies (#[trigger] procs[i]).space.wf(ram, f1) by {
        let s = procs[i].space;
        assert forall|k: int| 0 <= k < s.owned@.len() implies f1.in_use(#[trigger] s.owned@[k]) by {
            assert(f0.in_use(s.owned@[k]));
            assert(s.owned@.contains(s.owned@[k]));
        }
    }
}

proof fn lemma_hidden_step(
    p0: Seq<PageState>,
    a: Seq<PageState>,
    b: Seq<PageState>,
    mappings: Seq<Mapping>,
    index: int,
    pid: int,
    q: Path,
)
    requires
        0 <= index < p0.len(),
        a.len() == p0.len(),
        a[index] == p0[index],
        p0[index] is Resident,
        b == a.update(index, PageState::Absent),
    ensures
        hidden_in(p0, b, mappings, pid, q) == (hidden_in(p0, a, mappings, pid, q) || shows_at(
            mappings,
            mappings.len() as int,
            index,
            pid,
            q,
        )),
{
    if hidden_in(p0, b, mappings, pid, q) {
        let (j, k) = choose|j: int, k: int|
            #![trigger p0[j], mappings[k]]
            dropped(p0, b, j) && 0 <= k < mappings.len() && mappings[k].pid == pid && q
                == crate::mm::paging::path_of((mappings[k].base + j * 4096) as u64);
        if j != index {
            assert(dropped(p0, a, j));
            assert(mappings[k].pid == pid);
            assert(hidden_in(p0, a, mappings, pid, q));
        }
    }
    if hidden_in(p0, a, mappings, pid, q) {
        let (j, k) = choose|j: int, k: int|
            #![trigger p0[j], mappings[k]]
            dropped(p0, a, j) && 0 <= k < mappings.len() && mappings[k].pid == pid && q
                == crate::mm::paging::path_of((mappings[k].base + j * 4096) as u64);
        assert(j != index);
        assert(dropped(p0, b, j));
        assert(mappings[k].pid == pid);
    }
    if shows_at(mappings, mappings.len() as int, index, pid, q) {
        let k = choose|k: int|
            0 <= k < mappings.len() && (#[trigger] mappings[k]).pid == pid && q
                == crate::mm::paging::path_of((mappings[k].base + index * 4096) as u64);
        assert(dropped(p0, b, index));
        assert(p0[index] is Resident);
    }
}

proof fn lemma_nothing_hidden(p0: Seq<PageState>, mappings: Seq<Mapping>, pid: int, q: Path)
    ensures
        !hidden_in(p0, p0, mappings, pid, q),
{
}

proof fn lemma_pushed(fs: Seq<u64>, f: u64)
    ensures
        forall|x: u64| #[trigger] fs.push(f).contains(x) == (fs.contains(x) || x == f),
{
    assert forall|x: u64| #[trigger] fs.push(f).contains(x) == (fs.contains(x) || x == f) by {
        if fs.contains(x) {
            let k = choose|k: int| 0 <= k < fs.len() && fs[k] == x;
            assert(fs.push(f)[k] == x);
        }
        if x == f {
            assert(fs.push(f)[fs.len() as int] == x);
        }
        if fs.push(f).contains(x) {
            let k = choose|k: int| 0 <= k < fs.push(f).len() && fs.push(f)[k] == x;
            if k < fs.len() {
                assert(fs[k] == x);
            }
        }
    }
}

proof fn lemma_residents_after_drop(
    v: StoreView,
    procs: Seq<Process>,
    f0: Frames,
    f1: Frames,
)
    requires
        v.wf(),
        v.order.len() > 0,
        residents_ok(v.models, procs, f0),
        forall|x: u64| #[trigger] f1.in_use(x) == (f0.in_use(x) && x != newest_frame(v)),
    ensures
        residents_ok(without_newest(v).models, procs, f1),
{
    reveal(lists_residents);
    let (i, j) = v.order.last();
    let f = newest_frame(v);
    assert(is_resident(v.models, v.order[v.order.len() - 1]));
    let w = without_newest(v).models;
    assert forall|a: int, b: int|
        #![trigger w[a].pages[b]]
        0 <= a < w.len() && 0 <= b < w[a].pages.len() implies (
    w[a].pages[b] matches PageState::Resident(x) ==> f1.in_use(x) && unowned(procs, x)) by {
        let was = v.models[a].pages[b];
        if w[a].pages[b] is Resident {
            assert(was == w[a].pages[b]);
            if was == PageState::Resident(f) {
                assert(v.models[i].pages[j] == v.models[a].pages[b]);
            }
        }
    }
    assert forall|a: int, b: int, k: int, l: int|
        #![trigger w[a].pages[b], w[k].pages[l]]
        0 <= a < w.len() && 0 <= b < w[a].pages.len() && 0 <= k < w.len() && 0 <= l
            < w[k].pages.len() && w[a].pages[b] is Resident && w[a].pages[b]
            == w[k].pages[l] implies a == k && b == l by {
        let x = v.models[a].pages[b];
        let y = v.models[k].pages[l];
        assert(x == w[a].pages[b] && y == w[k].pages[l]);
    }
}

/// Dropping the newest page leaves the store in order.
pub proof fn dropping_keeps_the_order(v: StoreView)
    requires
        v.wf(),
        v.order.len() > 0,
    ensures
        without_newest(v).wf(),
        is_resident(v.models, v.order.last()),
{
    reveal(lists_residents);
    let o = v.order.drop_last();
    let last = v.order.last();
    let w = without_newest(v).models;
    assert(is_resident(v.models, v.order[v.order.len() - 1]));
    assert forall|k: int| 0 <= k < o.len() implies is_resident(w, #[trigger] o[k]) by {
        assert(is_resident(v.models, v.order[k]));
        assert(v.order[k] != v.order[v.order.len() - 1]);
    }
    assert forall|k: int, l: int| 0 <= k < l < o.len() implies #[trigger] o[k]
        != #[trigger] o[l] by {
        assert(v.order[k] != v.order[l]);
    }
    assert forall|p: (int, int)| #[trigger] is_resident(w, p) implies o.contains(p) by {
        assert(is_resident(v.models, p));
        let k = choose|k: int| 0 <= k < v.order.len() && v.order[k] == p;
        assert(p != last);
        assert(o[k] == p);
    }
}

proof fn lemma_hidden_models_step(
    m0: Seq<ModelView>,
    a: Seq<ModelView>,
    b: Seq<ModelView>,
    i: int,
    index: int,
    pid: int,
    q: Path,
)
    requires
        0 <= i < m0.len(),
        a.len() == m0.len(),
        b == a.update(i, b[i]),
        0 <= index < m0[i].pages.len(),
        a[i].pages.len() == m0[i].pages.len(),
        m0[i].pages[index] is Resident,
        a[i].pages[index] == m0[i].pages[index],
        b[i].pages == a[i].pages.update(index, PageState::Absent),
    ensures
        hidden(m0, b, pid, q) == (hidden(m0, a, pid, q) || shows_at(
            m0[i].mappings,
            m0[i].mappings.len() as int,
            index,
            pid,
            q,
        )),
{
    let ms = m0[i].mappings;
    lemma_hidden_step(m0[i].pages, a[i].pages, b[i].pages, ms, index, pid, q);
    if hidden(m0, b, pid, q) {
        let k = choose|k: int|
            0 <= k < m0.len() && hidden_in(
                (#[trigger] m0[k]).pages,
                b[k].pages,
                m0[k].mappings,
                pid,
                q,
            );
        if k != i {
            assert(a[k] == b[k]);
            assert(hidden(m0, a, pid, q));
        } else if hidden_in(m0[i].pages, a[i].pages, ms, pid, q) {
            assert(hidden(m0, a, pid, q));
        }
    }
    if hidden(m0, a, pid, q) {
        let k = choose|k: int|
            0 <= k < m0.len() && hidden_in(
                (#[trigger] m0[k]).pages,
                a[k].pages,
                m0[k].mappings,
                pid,
                q,
            );
        if k != i {
            assert(a[k] == b[k]);
        }
        assert(hidden_in(m0[k].pages, b[k].pages, m0[k].mappings, pid, q));
        assert(hidden(m0, b, pid, q));
    }
    if shows_at(ms, ms.len() as int, index, pid, q) {
        assert(hidden_in(m0[i].pages, b[i].pages, m0[i].mappings, pid, q));
        assert(hidden(m0, b, pid, q));
    }
}

proof fn lemma_nothing_hidden_yet(m0: Seq<ModelView>, pid: int, q: Path)
    ensures
        !hidden(m0, m0, pid, q),
{
    if hidden(m0, m0, pid, q) {
        let k = choose|k: int|
            0 <= k < m0.len() && hidden_in(
                (#[trigger] m0[k]).pages,
                m0[k].pages,
                m0[k].mappings,
                pid,
                q,
            );
        lemma_nothing_hidden(m0[k].pages, m0[k].mappings, pid, q);
    }
}

/// How dropping up to `want` pages, of which `freed` went, may end: with the store, the
/// allocator and memory `v1`, `f1` and `r1` where there were `v0`, `f0` and `r0`.
pub open spec fn dropped_newest(
    v0: StoreView,
    f0: Frames,
    r0: Ram,
    v1: StoreView,
    f1: Frames,
    r1: Ram,
    procs: Seq<Process>,
    want: usize,
    freed: usize,
) -> bool {
    let (v, fs) = reclaimed(v0, want as nat);
    &&& freed == (if want < v0.resident {
        want as int
    } else {
        v0.resident as int
    })
    // The pages that go are those read last; the others stay.
    &&& v1.order == v0.order.take(v0.order.len() - freed)
    &&& forall|k: int|
        0 <= k < v0.order.len() ==> is_resident(v1.models, #[trigger] v0.order[k]) == (k
            < v0.order.len() - freed)
    &&& fs.len() == freed
    &&& v1 == v
    &&& f1.free@ == f0.free@ + fs
    &&& f1.available() == f0.available() + fs.len()
    &&& forall|x: u64| #[trigger] f1.in_use(x) == (f0.in_use(x) && !fs.contains(x))
    &&& same_but_tables(procs, r0, r1)
    &&& forall|p: int, q: Path|
        0 <= p < procs.len() && crate::mm::paging::path_ok(q) ==> #[trigger] procs[p].space.leaf(
            r1,
            q,
        ) == (if hidden(v0.models, v1.models, p, q) {
            None
        } else {
            procs[p].space.leaf(r0, q)
        })
}

/// Drop up to `want` resident pages, newest first, and give how many went.
///
/// Every page here is clean by construction, so reclaim is an unmap and a free —
/// no writeback, no swap file, no decision about what is dirty.
#[verifier::rlimit(60)]
pub fn reclaim(
    s: &mut Store,
    frames: &mut Frames,
    ram: &mut Ram,
    table: &Table,
    want: usize,
) -> (freed: usize)
    requires
        old(s)@.wf(),
        crate::proc::spaces_ok(table.procs@, *old(ram), *old(frames)),
        residents_ok(old(s)@.models, table.procs@, *old(frames)),
        forall|i: int|
            0 <= i < old(s)@.models.len() ==> mappings_fit(#[trigger] old(s)@.models[i]),
    ensures
        final(s)@.wf(),
        dropped_newest(
            old(s)@,
            *old(frames),
            *old(ram),
            final(s)@,
            *final(frames),
            *final(ram),
            table.procs@,
            want,
            freed,
        ),
        crate::proc::spaces_ok(table.procs@, *final(ram), *final(frames)),
        residents_ok(final(s)@.models, table.procs@, *final(frames)),
{
    let ghost v0 = s@;
    let ghost m0 = s@.models;
    let ghost f0 = *frames;
    let ghost r0 = *ram;
    let ghost procs = table.procs@;
    let ghost mut fs: Seq<u64> = Seq::empty();
    let mut freed: usize = 0;
    proof {
        assert(f0.free@ + fs =~= f0.free@);
        assert(fs + reclaimed(v0, want as nat).1 =~= reclaimed(v0, want as nat).1);
        assert(v0.order.take(v0.order.len() as int) =~= v0.order);
        assert forall|p: int, q: Path|
            0 <= p < procs.len() && crate::mm::paging::path_ok(q) implies
            #[trigger] procs[p].space.leaf(*ram, q) == (if hidden(m0, m0, p, q) {
            None
        } else {
            procs[p].space.leaf(r0, q)
        }) by {
            lemma_nothing_hidden_yet(m0, p, q);
        }
    }
    // A page being read right now is in no list: freeing it would pull the frame out
    // from under the thread filling it.
    while freed < want && s.order.len() > 0
        invariant
            freed <= want,
            freed <= v0.order.len(),
            freed == fs.len(),
            v0 == old(s)@,
            m0 == v0.models,
            f0 == *old(frames),
            r0 == *old(ram),
            procs == table.procs@,
            s@.wf(),
            s@.order == v0.order.take(v0.order.len() - freed),
            s@.models.len() == m0.len(),
            forall|k: int|
                0 <= k < m0.len() ==> (#[trigger] s@.models[k]).mappings == m0[k].mappings
                    && s@.models[k].pages.len() == m0[k].pages.len(),
            forall|k: int, j: int|
                #![trigger s@.models[k].pages[j]]
                0 <= k < m0.len() && 0 <= j < m0[k].pages.len() && s@.models[k].pages[j] is Resident
                    ==> s@.models[k].pages[j] == m0[k].pages[j],
            reclaimed(v0, want as nat) == (
                reclaimed(s@, (want - freed) as nat).0,
                fs + reclaimed(s@, (want - freed) as nat).1,
            ),
            frames.free@ == f0.free@ + fs,
            frames.available() == f0.available() + freed,
            forall|x: u64| #[trigger] frames.in_use(x) == (f0.in_use(x) && !fs.contains(x)),
            forall|k: int| 0 <= k < m0.len() ==> mappings_fit(#[trigger] m0[k]),
            crate::proc::spaces_ok(procs, *ram, *frames),
            residents_ok(s@.models, procs, *frames),
            same_but_tables(procs, r0, *ram),
            forall|p: int, q: Path|
                0 <= p < procs.len() && crate::mm::paging::path_ok(q)
                    ==> #[trigger] procs[p].space.leaf(*ram, q) == (if hidden(
                    m0,
                    s@.models,
                    p,
                    q,
                ) {
                    None
                } else {
                    procs[p].space.leaf(r0, q)
                }),
        decreases want - freed,
    {
        let ghost v1 = s@;
        let ghost r1 = *ram;
        let ghost f1 = *frames;
        let (at, index) = s.order[s.order.len() - 1];
        proof {
            dropping_keeps_the_order(v1);
            assert(v1.order.last() == (at as int, index as int));
            assert(v1.models[at as int] == s.models@[at as int]@);
        }
        let frame: u64 = match s.models[at].pages[index] {
            PageState::Resident(f) => f,
            _ => {
                assert(false);
                0
            },
        };
        assert(frame == newest_frame(v1));
        assert(v1.models[at as int].pages[index as int] == PageState::Resident(frame));
        assert(v1.models[at as int].pages[index as int] == m0[at as int].pages[index as int]);
        assert(f1.in_use(frame) && unowned(procs, frame));
        // Unmap from every process holding it first: a freed frame that is still in
        // someone's page table is the worst kind of bug.
        proof {
            let ms = m0[at as int].mappings;
            assert(mappings_fit(m0[at as int]));
            assert forall|k: int| 0 <= k < ms.len() implies (#[trigger] ms[k]).base + (index + 1)
                * 4096 <= u64::MAX by {
                assert(ms[k].base + m0[at as int].pages.len() * 4096 <= u64::MAX);
            }
        }
        unmap_everywhere(table, frames, ram, &s.models[at].mappings, index);
        free(frames, frame);
        s.models[at].pages[index] = PageState::Absent;
        s.models[at].reclaimed = s.models[at].reclaimed.wrapping_add(1);
        let _ = s.order.pop();
        s.resident = s.resident - 1;
        freed = freed + 1;
        proof {
            let b = s@.models;
            let w = without_newest(v1);
            assert(s.models@[at as int]@ =~= w.models[at as int]);
            assert(b =~= w.models);
            assert(s@.order =~= w.order);
            assert(s@ =~= w);
            assert(s@.order =~= v0.order.take(v0.order.len() - freed));
            crate::mm::frames::a_freed_frame_is_available_again(f1, *frames, frame);
            lemma_spaces_after_free(procs, *ram, f1, *frames, frame);
            lemma_same_but_tables_trans(procs, r0, r1, *ram);
            lemma_residents_after_drop(v1, procs, f1, *frames);
            lemma_pushed(fs, frame);
            let rest = reclaimed(w, (want - freed) as nat);
            assert(fs + (seq![frame] + rest.1) =~= fs.push(frame) + rest.1);
            assert(frames.free@ =~= f0.free@ + fs.push(frame));
            assert forall|p: int, q: Path|
                0 <= p < procs.len() && crate::mm::paging::path_ok(q) implies
                #[trigger] procs[p].space.leaf(*ram, q) == (if hidden(m0, b, p, q) {
                None
            } else {
                procs[p].space.leaf(r0, q)
            }) by {
                lemma_hidden_models_step(m0, v1.models, b, at as int, index as int, p, q);
                assert(procs[p].space.leaf(r1, q) == (if hidden(m0, v1.models, p, q) {
                    None
                } else {
                    procs[p].space.leaf(r0, q)
                }));
            }
            fs = fs.push(frame);
        }
    }
    proof {
        assert(reclaimed(s@, (want - freed) as nat) == (s@, Seq::<u64>::empty()));
        assert(fs + Seq::<u64>::empty() =~= fs);
        assert forall|k: int| 0 <= k < v0.order.len() implies is_resident(
            s@.models,
            #[trigger] v0.order[k],
        ) == (k < v0.order.len() - freed) by {
            crate::model_laws::the_newest_pages_go_first(v0, want as nat, k, k);
        }
    }
    freed
}

// ---- reporting ----------------------------------------------------------------------

/// (id, hash, size, resident pages, total pages, faults, reclaimed, refs)
pub fn stat(s: &Store, id: u64) -> (r: Option<(u64, u64, usize, usize, usize, u64, u64, usize)>)
    ensures
        match find_id(s@.models, id, 0) {
            Some(i) => {
                let m = s@.models[i];
                r == Some(
                    (
                        m.id,
                        m.hash,
                        m.size,
                        resident_among(m.pages, m.pages.len() as int) as usize,
                        m.pages.len() as usize,
                        m.faults,
                        m.reclaimed,
                        m.refs,
                    ),
                )
            },
            None => r is None,
        },
{
    match s.index_of(id) {
        None => None,
        Some(i) => {
            assert(s@.models[i as int] == s.models@[i as int]@);
            let m = &s.models[i];
            Some(
                (
                    m.id,
                    m.hash,
                    m.size,
                    m.resident_pages(),
                    m.total_pages(),
                    m.faults,
                    m.reclaimed,
                    m.refs,
                ),
            )
        },
    }
}

/// Hand every model to `f`, in the order they were opened.
pub fn for_each<F: Fn(&Model)>(s: &Store, f: F)
    requires
        forall|i: int|
            0 <= i < s.models@.len() ==> call_requires(f, (&#[trigger] s.models@[i],)),
    ensures
        forall|i: int|
            0 <= i < s.models@.len() ==> call_ensures(f, (&#[trigger] s.models@[i],), ()),
{
    let mut i: usize = 0;
    while i < s.models.len()
        invariant
            i <= s.models@.len(),
            forall|k: int|
                0 <= k < s.models@.len() ==> call_requires(f, (&#[trigger] s.models@[k],)),
            forall|k: int| 0 <= k < i ==> call_ensures(f, (&#[trigger] s.models@[k],), ()),
        decreases s.models@.len() - i,
    {
        f(&s.models[i]);
        i = i + 1;
    }
}

/// The faults of the first `n` models.
pub open spec fn faults_among(models: Seq<ModelView>, n: int) -> u64
    decreases n,
{
    if n <= 0 {
        0
    } else {
        faults_among(models, n - 1).wrapping_add(models[n - 1].faults)
    }
}

/// Total faults across every model, and how many were served from a page that was
/// already resident. Their difference is the number of pages that had to be read
/// from flash — the figure that says whether sharing happened.
pub fn fault_totals(s: &Store) -> (r: (u64, u64))
    ensures
        r == (faults_among(s@.models, s@.models.len() as int), s@.shared_hits),
{
    let mut faults: u64 = 0;
    let mut i: usize = 0;
    while i < s.models.len()
        invariant
            i <= s.models@.len(),
            faults == faults_among(s@.models, i as int),
        decreases s.models@.len() - i,
    {
        assert(s@.models[i as int] == s.models@[i as int]@);
        faults = faults.wrapping_add(s.models[i].faults);
        i = i + 1;
    }
    (faults, s.shared_hits)
}

/// Pages of weights resident right now.
pub fn resident_pages(s: &Store) -> (n: u64)
    ensures
        n == s@.resident,
{
    s.resident
}

/// Faults served from a frame that was already resident.
pub fn shared_hits(s: &Store) -> (n: u64)
    ensures
        n == s@.shared_hits,
{
    s.shared_hits
}

} // verus!
