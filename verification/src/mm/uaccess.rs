//! Copying across the user/kernel boundary.
//!
//! The kernel never dereferences a user pointer directly. A process can pass
//! any value it likes, so every access is translated through *that process's*
//! page tables first: an unmapped page returns an error instead of faulting the
//! kernel, and a pointer into kernel space simply does not translate.
use vstd::prelude::*;
use vstd::slice::slice_subrange;
use crate::mm::paging::AddressSpace;
use crate::mm::ram::Ram;
use crate::mm::PAGE_SIZE;

verus! {

/// Largest single transfer, so a bad length cannot make the kernel allocate
/// unboundedly on a process's say-so.
pub const MAX_TRANSFER: usize = 4096;

/// Where byte `i` of a user buffer at `uva` is.
pub open spec fn user_byte_at(ram: Ram, root: int, uva: u64, i: int) -> Option<u64> {
    crate::mm::paging::translation(ram, root, (uva + i) as u64)
}

/// How many of the `len` bytes at `uva` come before the first unmapped one,
/// counting from the `i`th.
pub open spec fn mapped_prefix(ram: Ram, root: int, uva: u64, len: int, i: int) -> int
    decreases len - i,
{
    if i >= len {
        len
    } else if user_byte_at(ram, root, uva, i) is None {
        i
    } else {
        mapped_prefix(ram, root, uva, len, i + 1)
    }
}

/// The mapped bytes of a buffer are memory, not device registers.
pub open spec fn in_memory(ram: Ram, root: int, uva: u64, len: int) -> bool {
    forall|i: int|
        0 <= i < mapped_prefix(ram, root, uva, len, 0) ==> ram.holds(
            (#[trigger] user_byte_at(ram, root, uva, i))->0 as int,
            1,
        )
}

proof fn lemma_prefix(ram: Ram, root: int, uva: u64, len: int, i: int)
    requires
        0 <= i <= len,
    ensures
        i <= mapped_prefix(ram, root, uva, len, i) <= len,
        forall|k: int|
            i <= k < mapped_prefix(ram, root, uva, len, i) ==> (#[trigger] user_byte_at(
                ram,
                root,
                uva,
                k,
            )) is Some,
        mapped_prefix(ram, root, uva, len, i) < len ==> user_byte_at(
            ram,
            root,
            uva,
            mapped_prefix(ram, root, uva, len, i),
        ) is None,
    decreases len - i,
{
    if i < len && user_byte_at(ram, root, uva, i) is Some {
        lemma_prefix(ram, root, uva, len, i + 1);
    }
}

proof fn lemma_prefix_run(ram: Ram, root: int, uva: u64, len: int, i: int, n: int)
    requires
        0 <= i,
        0 <= n,
        i + n <= len,
        forall|k: int| i <= k < i + n ==> (#[trigger] user_byte_at(ram, root, uva, k)) is Some,
    ensures
        mapped_prefix(ram, root, uva, len, i) == mapped_prefix(ram, root, uva, len, i + n),
    decreases n,
{
    if n > 0 {
        assert(user_byte_at(ram, root, uva, i) is Some);
        lemma_prefix_run(ram, root, uva, len, i + 1, n - 1);
    }
}

proof fn lemma_run(ram: Ram, root: int, uva: u64, done: int, n: int, pa: u64)
    requires
        0 <= done,
        uva + done < crate::mm::paging::USER_LIMIT,
        user_byte_at(ram, root, uva, done) == Some(pa),
        0 <= n,
        (uva + done) % 4096 + n <= 4096,
    ensures
        forall|k: int|
            done <= k < done + n ==> #[trigger] user_byte_at(ram, root, uva, k) == Some(
                (pa + (k - done)) as u64,
            ),
        pa % 4096 == (uva + done) % 4096,
        pa < crate::mm::paging::USER_LIMIT,
{
    let va = (uva + done) as u64;
    crate::mm::paging_laws::a_page_is_contiguous(ram, root, va, 0);
    assert forall|k: int| done <= k < done + n implies #[trigger] user_byte_at(ram, root, uva, k)
        == Some((pa + (k - done)) as u64) by {
        crate::mm::paging_laws::a_page_is_contiguous(ram, root, va, k - done);
        assert((va + (k - done)) as u64 == (uva + k) as u64);
    }
}

/// Whether the mapped bytes of a buffer are memory. Ask this of a buffer that a process
/// names, which may have device registers mapped as well, before copying.
pub fn is_in_memory(space: &AddressSpace, ram: &Ram, uva: u64, len: u64) -> (r: bool)
    requires
        ram.wf(),
        crate::mm::paging::tree(*ram, space.root as int, space.tables@),
    ensures
        r == in_memory(*ram, space.root as int, uva, len as int),
{
    let ghost root = space.root as int;
    let mut done: u64 = 0;
    proof {
        lemma_prefix(*ram, root, uva, len as int, 0);
    }
    while done < len
        invariant
            done <= len,
            root == space.root,
            ram.wf(),
            crate::mm::paging::tree(*ram, root, space.tables@),
            done > 0 ==> uva + done <= crate::mm::paging::USER_LIMIT,
            mapped_prefix(*ram, root, uva, len as int, 0) == mapped_prefix(
                *ram,
                root,
                uva,
                len as int,
                done as int,
            ),
            forall|i: int|
                0 <= i < done ==> ram.holds(
                    (#[trigger] user_byte_at(*ram, root, uva, i))->0 as int,
                    1,
                ),
        decreases len - done,
    {
        let va: u64 = uva + done;
        let pa: u64 = match space.translate(ram, va) {
            None => {
                return true;
            },
            Some(pa) => pa,
        };
        let in_page: u64 = PAGE_SIZE - va % PAGE_SIZE;
        let rest: u64 = len - done;
        let n: u64 = if in_page < rest {
            in_page
        } else {
            rest
        };
        proof {
            lemma_run(*ram, root, uva, done as int, n as int, pa);
            lemma_prefix_run(*ram, root, uva, len as int, done as int, n as int);
            lemma_prefix(*ram, root, uva, len as int, done + n);
        }
        let size: u64 = ram.bytes.len() as u64;
        if pa < ram.base {
            assert(!ram.holds(user_byte_at(*ram, root, uva, done as int)->0 as int, 1));
            return false;
        }
        if pa - ram.base + n > size {
            assert(!ram.holds(user_byte_at(*ram, root, uva, done + n - 1)->0 as int, 1));
            return false;
        }
        assert forall|i: int| 0 <= i < done + n implies ram.holds(
            (#[trigger] user_byte_at(*ram, root, uva, i))->0 as int,
            1,
        ) by {
            if i >= done {
                assert(user_byte_at(*ram, root, uva, i) == Some((pa + (i - done)) as u64));
            }
        }
        done = done + n;
    }
    true
}

/// The bytes before the first unmapped one are mapped.
pub proof fn a_prefix_is_mapped(ram: Ram, root: int, uva: u64, len: int)
    requires
        0 <= len,
    ensures
        0 <= mapped_prefix(ram, root, uva, len, 0) <= len,
        forall|k: int|
            0 <= k < mapped_prefix(ram, root, uva, len, 0) ==> (#[trigger] user_byte_at(
                ram,
                root,
                uva,
                k,
            )) is Some,
{
    lemma_prefix(ram, root, uva, len, 0);
}

/// A part of a buffer in memory is in memory.
pub proof fn part_of_a_buffer_in_memory(ram: Ram, root: int, uva: u64, len: int, n: int)
    requires
        in_memory(ram, root, uva, len),
        0 <= n <= len,
    ensures
        in_memory(ram, root, uva, n),
{
    lemma_prefix(ram, root, uva, n, 0);
    lemma_prefix(ram, root, uva, len, 0);
    let a = mapped_prefix(ram, root, uva, n, 0);
    let b = mapped_prefix(ram, root, uva, len, 0);
    if b < a {
        assert(user_byte_at(ram, root, uva, b) is Some);
    }
}

/// What taking bytes from a process gives.
pub open spec fn fetched(
    ram: Ram,
    root: int,
    uva: u64,
    len: usize,
    r: Result<Vec<u8>, &'static str>,
) -> bool {
    if len > MAX_TRANSFER {
        r matches Err(e) && e == "transfer too large"
    } else if mapped_prefix(ram, root, uva, len as int, 0) < len {
        r matches Err(e) && e == "unmapped user address"
    } else {
        &&& r is Ok
        &&& (r->Ok_0)@.len() == len
        &&& forall|i: int|
            0 <= i < len ==> #[trigger] (r->Ok_0)@[i] == ram.byte(
                user_byte_at(ram, root, uva, i)->0 as int,
            )
    }
}

/// Copy `len` bytes from a process's memory at `uva`.
#[verifier::rlimit(30)]
pub fn copy_from_user(space: &AddressSpace, ram: &Ram, uva: u64, len: usize) -> (r: Result<
    Vec<u8>,
    &'static str,
>)
    requires
        ram.wf(),
        crate::mm::paging::tree(*ram, space.root as int, space.tables@),
        in_memory(*ram, space.root as int, uva, len as int),
    ensures
        fetched(*ram, space.root as int, uva, len, r),
{
    if len > MAX_TRANSFER {
        return Err("transfer too large");
    }
    let ghost root = space.root as int;
    let mut out: Vec<u8> = Vec::with_capacity(len);
    let mut done: usize = 0;
    while done < len
        invariant
            done <= len <= 4096,
            root == space.root,
            ram.wf(),
            crate::mm::paging::tree(*ram, root, space.tables@),
            in_memory(*ram, root, uva, len as int),
            done > 0 ==> uva < crate::mm::paging::USER_LIMIT,
            out@.len() == done,
            mapped_prefix(*ram, root, uva, len as int, 0) == mapped_prefix(
                *ram,
                root,
                uva,
                len as int,
                done as int,
            ),
            forall|i: int|
                0 <= i < done ==> #[trigger] out@[i] == ram.byte(
                    user_byte_at(*ram, root, uva, i)->0 as int,
                ),
        decreases len - done,
    {
        let va: u64 = uva + done as u64;
        let pa: u64 = match space.translate(ram, va) {
            None => {
                return Err("unmapped user address");
            },
            Some(pa) => pa,
        };
        let in_page: u64 = PAGE_SIZE - va % PAGE_SIZE;
        let rest: u64 = (len - done) as u64;
        let n: usize = if in_page < rest {
            in_page as usize
        } else {
            rest as usize
        };
        proof {
            lemma_run(*ram, root, uva, done as int, n as int, pa);
            lemma_prefix_run(*ram, root, uva, len as int, done as int, n as int);
            lemma_prefix(*ram, root, uva, len as int, done + n);
            let last = done + n - 1;
            assert(ram.holds(user_byte_at(*ram, root, uva, done as int)->0 as int, 1));
            assert(ram.holds(user_byte_at(*ram, root, uva, last)->0 as int, 1));
        }
        let ghost before = out@;
        ram.read_bytes(pa, n, &mut out);
        assert forall|i: int| 0 <= i < done + n implies #[trigger] out@[i] == ram.byte(
            user_byte_at(*ram, root, uva, i)->0 as int,
        ) by {
            if i < done {
                assert(before[i] == ram.byte(user_byte_at(*ram, root, uva, i)->0 as int));
            } else {
                assert(user_byte_at(*ram, root, uva, i) == Some((pa + (i - done)) as u64));
            }
        }
        done = done + n;
    }
    Ok(out)
}

/// Which of the first `n` bytes of a buffer at `uva` is the last to land on the
/// byte at `q`.
pub open spec fn last_writer(ram: Ram, root: int, uva: u64, n: int, q: int) -> Option<int>
    decreases n,
{
    if n <= 0 {
        None
    } else if user_byte_at(ram, root, uva, n - 1) == Some(q as u64) {
        Some(n - 1)
    } else {
        last_writer(ram, root, uva, n - 1, q)
    }
}

proof fn lemma_last_writer_run(ram: Ram, root: int, uva: u64, done: int, n: int, pa: u64, q: int)
    requires
        0 <= done,
        0 <= n,
        0 <= q <= u64::MAX,
        pa + n <= u64::MAX,
        forall|k: int|
            done <= k < done + n ==> #[trigger] user_byte_at(ram, root, uva, k) == Some(
                (pa + (k - done)) as u64,
            ),
    ensures
        last_writer(ram, root, uva, done + n, q) == (if pa <= q < pa + n {
            Some(done + (q - pa))
        } else {
            last_writer(ram, root, uva, done, q)
        }),
    decreases n,
{
    if n > 0 {
        lemma_last_writer_run(ram, root, uva, done, n - 1, pa, q);
        assert(user_byte_at(ram, root, uva, done + n - 1) == Some((pa + (n - 1)) as u64));
    }
}

/// The walks of a space are what they were.
#[verifier::opaque]
spec fn same_walks(r0: Ram, r: Ram, root: int, tables: Seq<u64>) -> bool {
    &&& crate::mm::paging::tree(r, root, tables)
    &&& forall|p: crate::mm::paging::Path|
        crate::mm::paging::path_ok(p) ==> #[trigger] crate::mm::paging::leaf(r, root, p)
            == crate::mm::paging::leaf(r0, root, p)
    &&& forall|va: u64| #[trigger]
        crate::mm::paging::translation(r, root, va) == crate::mm::paging::translation(r0, root, va)
}

/// The first `n` bytes of `data` have been copied to `uva`, and nothing else.
#[verifier::opaque]
spec fn copied(r0: Ram, r: Ram, root: int, uva: u64, data: Seq<u8>, n: int) -> bool {
    &&& r.base == r0.base
    &&& r.bytes@.len() == r0.bytes@.len()
    &&& forall|q: int|
        r0.holds(q, 1) ==> #[trigger] r.byte(q) == (match last_writer(r0, root, uva, n, q) {
            Some(i) => data[i],
            None => r0.byte(q),
        })
}

/// A run of bytes that lands in one page is what the process finds there, and what
/// was written before it stays.
proof fn lemma_run_is_written(
    r0: Ram,
    r1: Ram,
    r2: Ram,
    root: int,
    uva: u64,
    data: Seq<u8>,
    done: int,
    n: int,
    pa: u64,
)
    requires
        0 <= done,
        0 <= n,
        r0.wf(),
        pa + n <= u64::MAX,
        forall|k: int|
            done <= k < done + n ==> #[trigger] user_byte_at(r0, root, uva, k) == Some(
                (pa + (k - done)) as u64,
            ),
        r1.same_outside(r2, pa as int, n),
        forall|q: int| pa <= q < pa + n ==> #[trigger] r2.byte(q) == data[done + (q - pa)],
        copied(r0, r1, root, uva, data, done),
    ensures
        copied(r0, r2, root, uva, data, done + n),
{
    reveal(copied);
    assert forall|q: int| r0.holds(q, 1) implies #[trigger] r2.byte(q) == (match last_writer(
        r0,
        root,
        uva,
        done + n,
        q,
    ) {
        Some(i) => data[i],
        None => r0.byte(q),
    }) by {
        lemma_last_writer_run(r0, root, uva, done, n, pa, q);
        assert(r1.holds(q, 1));
        if !(pa <= q < pa + n) {
            assert(r2.byte(q) == r1.byte(q));
        }
    }
}

/// Writing within the page that a walk leads to changes no walk.
proof fn lemma_walks_kept(
    space: AddressSpace,
    r0: Ram,
    r1: Ram,
    r2: Ram,
    va: u64,
    pa: u64,
    n: int,
)
    requires
        va < crate::mm::paging::USER_LIMIT,
        space.apart(r0),
        same_walks(r0, r1, space.root as int, space.tables@),
        crate::mm::paging::translation(r0, space.root as int, va) == Some(pa),
        0 <= n,
        va % 4096 + n <= 4096,
        r1.same_outside(r2, pa as int, n),
    ensures
        same_walks(r0, r2, space.root as int, space.tables@),
{
    reveal(same_walks);
    let root = space.root as int;
    crate::mm::paging_laws::a_page_is_contiguous(r0, root, va, 0);
    crate::mm::paging::paths_are_in_range(va);
    let page = (pa - pa % 4096) as u64;
    let p = crate::mm::paging::path_of(va);
    assert(space.leaf(r0, p) is Some);
    assert(!space.tables@.contains(page));
    assert(r1.same_outside(r2, page as int, 4096));
    crate::mm::paging_laws::writing_user_memory_keeps_the_space(r1, r2, root, space.tables@, page);
}

/// What putting bytes into a process's memory does to memory, and what it says.
pub open spec fn stored(
    ram: Ram,
    ram1: Ram,
    root: int,
    uva: u64,
    data: Seq<u8>,
    r: Result<(), &'static str>,
) -> bool {
    let n = mapped_prefix(ram, root, uva, data.len() as int, 0);
    &&& r == (if n < data.len() {
        Err::<(), &'static str>("unmapped user address")
    } else {
        Ok(())
    })
    &&& ram1.base == ram.base
    &&& ram1.bytes@.len() == ram.bytes@.len()
    &&& forall|q: int|
        ram.holds(q, 1) ==> #[trigger] ram1.byte(q) == (match last_writer(ram, root, uva, n, q) {
            Some(i) => data[i],
            None => ram.byte(q),
        })
}

/// Copy `data` into a process's memory at `uva`. Where part of the buffer is not
/// mapped, what comes before it has been copied.
#[verifier::rlimit(30)]
pub fn copy_to_user(space: &AddressSpace, ram: &mut Ram, uva: u64, data: &[u8]) -> (r: Result<
    (),
    &'static str,
>)
    requires
        old(ram).wf(),
        crate::mm::paging::tree(*old(ram), space.root as int, space.tables@),
        space.apart(*old(ram)),
        in_memory(*old(ram), space.root as int, uva, data@.len() as int),
        data@.len() < crate::mm::paging::USER_LIMIT,
    ensures
        final(ram).wf(),
        stored(*old(ram), *final(ram), space.root as int, uva, data@, r),
        crate::mm::paging::tree(*final(ram), space.root as int, space.tables@),
        forall|p: crate::mm::paging::Path|
            crate::mm::paging::path_ok(p) ==> #[trigger] space.leaf(*final(ram), p) == space.leaf(
                *old(ram),
                p,
            ),
{
    let ghost root = space.root as int;
    let ghost r0 = *ram;
    let ghost all = data@.len() as int;
    let mut done: usize = 0;
    assert(same_walks(r0, r0, root, space.tables@)) by {
        reveal(same_walks);
    }
    assert(copied(r0, r0, root, uva, data@, 0)) by {
        reveal(copied);
    }
    while done < data.len()
        invariant
            done <= all,
            all == data@.len(),
            all < crate::mm::paging::USER_LIMIT,
            root == space.root,
            r0 == *old(ram),
            r0.wf(),
            ram.base == r0.base,
            ram.bytes@.len() == r0.bytes@.len(),
            space.apart(r0),
            crate::mm::paging::tree(r0, root, space.tables@),
            same_walks(r0, *ram, root, space.tables@),
            in_memory(r0, root, uva, all),
            done > 0 ==> uva < crate::mm::paging::USER_LIMIT,
            mapped_prefix(r0, root, uva, all, 0) == mapped_prefix(r0, root, uva, all, done as int),
            copied(r0, *ram, root, uva, data@, done as int),
        decreases all - done,
    {
        let ghost r1 = *ram;
        let va: u64 = uva + done as u64;
        proof {
            reveal(same_walks);
        }
        let pa: u64 = match space.translate(ram, va) {
            None => {
                proof {
                    reveal(copied);
                }
                return Err("unmapped user address");
            },
            Some(pa) => pa,
        };
        let in_page: u64 = PAGE_SIZE - va % PAGE_SIZE;
        let rest: u64 = (data.len() - done) as u64;
        let n: usize = if in_page < rest {
            in_page as usize
        } else {
            rest as usize
        };
        proof {
            lemma_run(r0, root, uva, done as int, n as int, pa);
            lemma_prefix_run(r0, root, uva, all, done as int, n as int);
            lemma_prefix(r0, root, uva, all, done + n);
            assert(r0.holds(user_byte_at(r0, root, uva, done as int)->0 as int, 1));
            assert(r0.holds(user_byte_at(r0, root, uva, done + n - 1)->0 as int, 1));
        }
        let part = slice_subrange(data, done, done + n);
        ram.write_bytes(pa, part);
        proof {
            lemma_walks_kept(*space, r0, r1, *ram, va, pa, n as int);
            lemma_run_is_written(r0, r1, *ram, root, uva, data@, done as int, n as int, pa);
        }
        done = done + n;
    }
    proof {
        reveal(same_walks);
        reveal(copied);
    }
    Ok(())
}

/// A buffer that is mapped throughout is mapped to its end.
pub proof fn a_mapped_buffer_is_mapped_to_its_end(ram: Ram, root: int, uva: u64, len: int)
    requires
        0 <= len,
        forall|k: int| 0 <= k < len ==> (#[trigger] user_byte_at(ram, root, uva, k)) is Some,
    ensures
        mapped_prefix(ram, root, uva, len, 0) == len,
{
    lemma_prefix_run(ram, root, uva, len, 0, len);
}

/// A byte of memory that no byte of the buffer lands on is not written.
pub proof fn other_bytes_are_not_written(ram: Ram, root: int, uva: u64, n: int, q: int)
    requires
        forall|k: int|
            0 <= k < n ==> #[trigger] user_byte_at(ram, root, uva, k) != Some(q as u64),
    ensures
        last_writer(ram, root, uva, n, q) is None,
    decreases n,
{
    if n > 0 {
        assert(user_byte_at(ram, root, uva, n - 1) != Some(q as u64));
        other_bytes_are_not_written(ram, root, uva, n - 1, q);
    }
}

/// Copying in and copying out agree: where no two bytes of the buffer share
/// memory, what was copied in is what is there.
pub proof fn copied_bytes_are_there(ram: Ram, root: int, uva: u64, n: int, i: int)
    requires
        0 <= i < n,
        user_byte_at(ram, root, uva, i) is Some,
        forall|k: int|
            i < k < n ==> #[trigger] user_byte_at(ram, root, uva, k) != user_byte_at(
                ram,
                root,
                uva,
                i,
            ),
    ensures
        last_writer(ram, root, uva, n, user_byte_at(ram, root, uva, i)->0 as int) == Some(i),
    decreases n,
{
    if i < n - 1 {
        assert(user_byte_at(ram, root, uva, n - 1) != user_byte_at(ram, root, uva, i));
        copied_bytes_are_there(ram, root, uva, n - 1, i);
    }
}

/// A pointer into kernel space does not translate, so nothing is copied from it
/// or to it.
pub proof fn kernel_pointers_do_not_translate(ram: Ram, root: int, uva: u64, len: int)
    requires
        uva >= crate::mm::paging::USER_LIMIT,
        len > 0,
    ensures
        mapped_prefix(ram, root, uva, len, 0) == 0,
{
}

} // verus!
