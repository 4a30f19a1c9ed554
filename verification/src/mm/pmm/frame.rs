use vstd::prelude::*;

verus! {

/// Owner of an in-use frame.
#[derive(Debug, Clone, Copy, PartialEq, Eq, Structural)]
pub enum FrameOwner {
    /// Kernel code, data or heap.
    Kernel,
    /// A page-table page.
    PageTable,
    /// A slab page.
    Slab,
    /// A process address space.
    Process,
    /// Device DMA / MMIO.
    Device,
    /// Swap backing.
    Swap,
    /// Unknown or unclassified.
    Unknown,
}

impl Default for FrameOwner {
    fn default() -> (r: Self)
        ensures
            r == FrameOwner::Unknown,
    {
        FrameOwner::Unknown
    }
}

/// State of a frame.
#[derive(Debug, Clone, Copy, PartialEq, Eq, Structural)]
pub enum FrameState {
    /// Free.
    Free,
    /// In use, with its owner.
    Used(FrameOwner),
    /// Reserved (never handed out).
    Reserved,
}

/// Per-frame metadata.
#[derive(Debug, Clone, Copy, PartialEq, Eq, Structural)]
pub struct FrameMeta {
    /// State (with the owner when in use).
    pub state: FrameState,
    /// Buddy order the frame was handed out at.
    pub order: u8,
}

impl FrameMeta {
    /// A free frame.
    pub fn free() -> (r: Self)
        ensures
            r == (FrameMeta { state: FrameState::Free, order: 0 }),
    {
        Self { state: FrameState::Free, order: 0 }
    }

    /// An in-use frame.
    pub fn used(owner: FrameOwner, order: u8) -> (r: Self)
        ensures
            r == (FrameMeta { state: FrameState::Used(owner), order }),
    {
        Self { state: FrameState::Used(owner), order }
    }

    /// A reserved frame.
    pub fn reserved() -> (r: Self)
        ensures
            r == (FrameMeta { state: FrameState::Reserved, order: 0 }),
    {
        Self { state: FrameState::Reserved, order: 0 }
    }

    /// Whether the frame is free.
    pub fn is_free(&self) -> (r: bool)
        ensures
            r == (self.state is Free),
    {
        match self.state {
            FrameState::Free => true,
            _ => false,
        }
    }

    /// Owner of an in-use frame.
    pub fn owner(&self) -> (r: Option<FrameOwner>)
        ensures
            r == (match self.state {
                FrameState::Used(o) => Some(o),
                _ => None,
            }),
    {
        match self.state {
            FrameState::Used(o) => Some(o),
            _ => None,
        }
    }
}

/// Number of owner kinds.
pub const FRAME_OWNER_COUNT: usize = 7;

/// Index of an owner in per-owner statistics.
pub open spec fn owner_index_spec(owner: FrameOwner) -> int {
    match owner {
        FrameOwner::Kernel => 0,
        FrameOwner::PageTable => 1,
        FrameOwner::Slab => 2,
        FrameOwner::Process => 3,
        FrameOwner::Device => 4,
        FrameOwner::Swap => 5,
        FrameOwner::Unknown => 6,
    }
}

/// Index of an owner in per-owner statistics.
pub fn owner_index(owner: FrameOwner) -> (r: usize)
    ensures
        r == owner_index_spec(owner),
        r < FRAME_OWNER_COUNT,
{
    match owner {
        FrameOwner::Kernel => 0,
        FrameOwner::PageTable => 1,
        FrameOwner::Slab => 2,
        FrameOwner::Process => 3,
        FrameOwner::Device => 4,
        FrameOwner::Swap => 5,
        FrameOwner::Unknown => 6,
    }
}

/// Frame statistics.
#[derive(Debug, Clone, Copy)]
pub struct FrameSummary {
    /// Frames.
    pub total: usize,
    /// Free frames.
    pub free: usize,
    /// In-use frames.
    pub used: usize,
    /// Reserved frames.
    pub reserved: usize,
    /// In-use frames per owner.
    pub by_owner: [usize; 7],
}

/// Number of frames in `metas` satisfying `p`.
pub open spec fn count_frames(metas: Seq<FrameMeta>, p: spec_fn(FrameMeta) -> bool) -> nat
    decreases metas.len(),
{
    if metas.len() == 0 {
        0
    } else {
        count_frames(metas.drop_last(), p) + if p(metas.last()) { 1nat } else { 0nat }
    }
}

/// The count of a prefix never exceeds its length.
pub proof fn lemma_count_frames_le(metas: Seq<FrameMeta>, p: spec_fn(FrameMeta) -> bool)
    ensures
        count_frames(metas, p) <= metas.len(),
    decreases metas.len(),
{
    if metas.len() > 0 {
        lemma_count_frames_le(metas.drop_last(), p);
    }
}

impl FrameSummary {
    /// Count the frames of `metas` by state and, for in-use ones, by owner.
    pub fn summarize(metas: &[FrameMeta]) -> (s: Self)
        ensures
            s.total == metas@.len(),
            s.free == count_frames(metas@, |m: FrameMeta| m.state is Free),
            s.used == count_frames(metas@, |m: FrameMeta| m.state is Used),
            s.reserved == count_frames(metas@, |m: FrameMeta| m.state is Reserved),
            forall|k: int| 0 <= k < 7 ==> s.by_owner[k] == count_frames(metas@,
                |m: FrameMeta| m.state is Used && owner_index_spec(m.state->0) == k),
    {
        let mut s = FrameSummary { total: metas.len(), free: 0, used: 0, reserved: 0, by_owner: [0; 7] };
        let mut i: usize = 0;
        while i < metas.len()
            invariant
                i <= metas@.len(),
                s.total == metas@.len(),
                s.free == count_frames(metas@.subrange(0, i as int), |m: FrameMeta| m.state is Free),
                s.used == count_frames(metas@.subrange(0, i as int), |m: FrameMeta| m.state is Used),
                s.reserved == count_frames(metas@.subrange(0, i as int), |m: FrameMeta| m.state is Reserved),
                forall|k: int| 0 <= k < 7 ==> s.by_owner[k] == count_frames(metas@.subrange(0, i as int),
                    |m: FrameMeta| m.state is Used && owner_index_spec(m.state->0) == k),
            decreases metas@.len() - i,
        {
            let m = metas[i];
            let ghost pre = metas@.subrange(0, i as int);
            let ghost post = metas@.subrange(0, i + 1);
            proof {
                assert(post.drop_last() =~= pre);
                assert(post.last() == m);
                lemma_count_frames_le(pre, |m: FrameMeta| m.state is Free);
                lemma_count_frames_le(pre, |m: FrameMeta| m.state is Used);
                lemma_count_frames_le(pre, |m: FrameMeta| m.state is Reserved);
                assert forall|k: int| 0 <= k < 7 implies s.by_owner[k] <= i by {
                    lemma_count_frames_le(pre, |m: FrameMeta| m.state is Used && owner_index_spec(m.state->0) == k);
                }
            }
            match m.state {
                FrameState::Free => {
                    s.free = s.free + 1;
                },
                FrameState::Used(o) => {
                    s.used = s.used + 1;
                    let k = owner_index(o);
                    s.by_owner[k] = s.by_owner[k] + 1;
                },
                FrameState::Reserved => {
                    s.reserved = s.reserved + 1;
                },
            }
            i = i + 1;
        }
        assert(metas@.subrange(0, metas@.len() as int) =~= metas@);
        s
    }
}

} // verus!
