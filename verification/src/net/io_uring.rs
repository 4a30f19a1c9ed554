use vstd::prelude::*;
use std::collections::VecDeque;
use crate::error::{KernelError, KernelResult};

verus! {

/// No-op operation code.
pub const OP_NOP: u8 = 0;
/// Read operation code.
pub const OP_READ: u8 = 1;
/// Write operation code.
pub const OP_WRITE: u8 = 2;
/// Send operation code.
pub const OP_SEND: u8 = 29;
/// Receive operation code.
pub const OP_RECV: u8 = 30;

/// Submission queue entry.
#[derive(Debug, Clone)]
pub struct SqEntry {
    /// Operation code.
    pub opcode: u8,
    /// Flags.
    pub flags: u8,
    /// File descriptor.
    pub fd: i32,
    /// File offset.
    pub offset: u64,
    /// Buffer address.
    pub addr: u64,
    /// Buffer length.
    pub len: u32,
    /// Caller's tag, returned in the completion.
    pub user_data: u64,
}

impl SqEntry {
    /// Entry for `opcode` on `fd`, every other field zero.
    pub fn new(opcode: u8, fd: i32) -> (r: Self)
        ensures
            r == (SqEntry { opcode, flags: 0, fd, offset: 0, addr: 0, len: 0, user_data: 0 }),
    {
        SqEntry { opcode, flags: 0, fd, offset: 0, addr: 0, len: 0, user_data: 0 }
    }
}

/// Completion queue entry.
#[derive(Debug, Clone)]
pub struct CqEntry {
    /// Tag of the submission.
    pub user_data: u64,
    /// Result.
    pub res: i32,
    /// Flags.
    pub flags: u32,
}

impl CqEntry {
    /// Completion with `user_data` and `res`, flags zero.
    pub fn new(user_data: u64, res: i32) -> (r: Self)
        ensures
            r == (CqEntry { user_data, res, flags: 0 }),
    {
        CqEntry { user_data, res, flags: 0 }
    }
}

/// Whether `n` is a power of two between 1 and 4096.
pub open spec fn ring_size_ok(n: usize) -> bool {
    n == 1 || n == 2 || n == 4 || n == 8 || n == 16 || n == 32 || n == 64 || n == 128 || n == 256
        || n == 512 || n == 1024 || n == 2048 || n == 4096
}

/// Whether an error carries the message `msg`.
pub open spec fn is_other(e: KernelError, msg: Seq<char>) -> bool {
    e matches KernelError::Other(m) && m@ == msg
}

/// A submission ring of `entries` slots and a completion ring of twice as
/// many, both first-in first-out.
pub struct IoUring {
    sq_buffer: VecDeque<SqEntry>,
    cq_buffer: VecDeque<CqEntry>,
    sq_tail: u32,
    cq_head: u32,
    entries: usize,
}

impl IoUring {
    /// Submissions waiting, oldest first.
    pub closed spec fn sq(&self) -> Seq<SqEntry> {
        self.sq_buffer@
    }

    /// Completions waiting, oldest first.
    pub closed spec fn cq(&self) -> Seq<CqEntry> {
        self.cq_buffer@
    }

    /// Number of submission slots.
    pub closed spec fn capacity(&self) -> nat {
        self.entries as nat
    }

    /// Count of submissions ever accepted, modulo 2^32.
    pub closed spec fn sq_tail(&self) -> u32 {
        self.sq_tail
    }

    /// Count of completions ever taken, modulo 2^32.
    pub closed spec fn cq_head(&self) -> u32 {
        self.cq_head
    }

    /// The ring's invariant: the queues are within their sizes.
    pub open spec fn wf(&self) -> bool {
        &&& 1 <= self.capacity() <= 4096
        &&& self.sq().len() <= self.capacity()
        &&& self.cq().len() <= 2 * self.capacity()
    }

    /// Ring with `entries` slots; `InvalidArgument` unless `entries` is a
    /// power of two from 1 to 4096.
    pub fn new(entries: usize) -> (r: KernelResult<Self>)
        ensures
            !ring_size_ok(entries) ==> r is Err && r->Err_0 == KernelError::InvalidArgument,
            ring_size_ok(entries) ==> r is Ok && ({
                let u = r->Ok_0;
                &&& u.wf()
                &&& u.capacity() == entries
                &&& u.sq().len() == 0
                &&& u.cq().len() == 0
                &&& u.sq_tail() == 0
                &&& u.cq_head() == 0
            }),
    {
        if entries == 0 || entries > 4096 {
            return Err(KernelError::InvalidArgument);
        }
        let n = entries;
        let m = n - 1;
        assert(((n & m) == 0) == ring_size_ok(n)) by (bit_vector)
            requires 1 <= n <= 4096, m == n - 1;
        if (n & m) != 0 {
            return Err(KernelError::InvalidArgument);
        }
        Ok(IoUring {
            sq_buffer: VecDeque::with_capacity(entries),
            cq_buffer: VecDeque::with_capacity(entries * 2),
            sq_tail: 0,
            cq_head: 0,
            entries,
        })
    }

    /// Queues a submission; the "SQ full" error when all slots are taken.
    pub fn submit(&mut self, entry: SqEntry) -> (r: KernelResult<()>)
        requires
            old(self).wf(),
        ensures
            final(self).wf(),
            final(self).capacity() == old(self).capacity(),
            final(self).cq() == old(self).cq(),
            final(self).cq_head() == old(self).cq_head(),
            old(self).sq().len() >= old(self).capacity() ==> r is Err && is_other(r->Err_0, "SQ full"@)
                && final(self).sq() == old(self).sq() && final(self).sq_tail() == old(self).sq_tail(),
            old(self).sq().len() < old(self).capacity() ==> r is Ok && final(self).sq() == old(self).sq().push(entry)
                && final(self).sq_tail() == (old(self).sq_tail() + 1) % 0x1_0000_0000,
    {
        if self.sq_buffer.len() >= self.entries {
            let e = KernelError::Other("SQ full");
            proof {
                reveal_strlit("SQ full");
            }
            return Err(e);
        }
        self.sq_buffer.push_back(entry);
        self.sq_tail = self.sq_tail.wrapping_add(1);
        Ok(())
    }

    /// Takes the oldest completion, if any.
    pub fn peek_cqe(&mut self) -> (r: Option<CqEntry>)
        requires
            old(self).wf(),
        ensures
            final(self).wf(),
            final(self).capacity() == old(self).capacity(),
            final(self).sq() == old(self).sq(),
            final(self).sq_tail() == old(self).sq_tail(),
            old(self).cq().len() == 0 ==> r is None && final(self).cq() == old(self).cq()
                && final(self).cq_head() == old(self).cq_head(),
            old(self).cq().len() > 0 ==> r == Some(old(self).cq()[0]) && final(self).cq() == old(self).cq().drop_first()
                && final(self).cq_head() == (old(self).cq_head() + 1) % 0x1_0000_0000,
    {
        let result = self.cq_buffer.pop_front();
        if result.is_some() {
            self.cq_head = self.cq_head.wrapping_add(1);
        }
        result
    }

    /// Takes the oldest submission, if any.
    pub fn next_sqe(&mut self) -> (r: Option<SqEntry>)
        requires
            old(self).wf(),
        ensures
            final(self).wf(),
            final(self).capacity() == old(self).capacity(),
            final(self).cq() == old(self).cq(),
            final(self).sq_tail() == old(self).sq_tail(),
            final(self).cq_head() == old(self).cq_head(),
            old(self).sq().len() == 0 ==> r is None && final(self).sq() == old(self).sq(),
            old(self).sq().len() > 0 ==> r == Some(old(self).sq()[0]) && final(self).sq() == old(self).sq().drop_first(),
    {
        self.sq_buffer.pop_front()
    }

    /// Queues a completion; the "CQ full" error when the completion ring
    /// holds twice the slot count.
    pub fn submit_cqe(&mut self, cqe: CqEntry) -> (r: KernelResult<()>)
        requires
            old(self).wf(),
        ensures
            final(self).wf(),
            final(self).capacity() == old(self).capacity(),
            final(self).sq() == old(self).sq(),
            final(self).sq_tail() == old(self).sq_tail(),
            final(self).cq_head() == old(self).cq_head(),
            old(self).cq().len() >= 2 * old(self).capacity() ==> r is Err && is_other(r->Err_0, "CQ full"@)
                && final(self).cq() == old(self).cq(),
            old(self).cq().len() < 2 * old(self).capacity() ==> r is Ok && final(self).cq() == old(self).cq().push(cqe),
    {
        if self.cq_buffer.len() >= self.entries * 2 {
            let e = KernelError::Other("CQ full");
            proof {
                reveal_strlit("CQ full");
            }
            return Err(e);
        }
        self.cq_buffer.push_back(cqe);
        Ok(())
    }

    /// Number of waiting submissions and completions.
    pub fn stats(&self) -> (r: (usize, usize))
        ensures
            r.0 == self.sq().len(),
            r.1 == self.cq().len(),
    {
        (self.sq_buffer.len(), self.cq_buffer.len())
    }
}

/// What is submitted comes out of the submission ring in the same order.
pub proof fn lemma_submission_fifo(q: Seq<SqEntry>, e: SqEntry)
    requires
        q.len() > 0,
    ensures
        q.push(e)[0] == q[0],
        q.push(e).drop_first() == q.drop_first().push(e),
{
    assert(q.push(e).drop_first() =~= q.drop_first().push(e));
}

/// Creates a ring of 256 slots, submits a no-op, and checks the queue
/// lengths; always passes.
pub fn selftest() -> (r: bool)
    ensures
        r,
{
    assert(ring_size_ok(256));
    let mut uring = match IoUring::new(256) {
        Ok(u) => u,
        Err(_) => {
            return false;
        },
    };
    let mut sqe = SqEntry::new(OP_NOP, -1);
    sqe.user_data = 42;
    if uring.submit(sqe).is_err() {
        return false;
    }
    let (sq_len, cq_len) = uring.stats();
    sq_len == 1 && cq_len == 0
}

} // verus!
