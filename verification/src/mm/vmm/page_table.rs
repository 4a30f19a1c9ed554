use vstd::prelude::*;
use std::collections::HashMap;

verus! {

/// Architecture-neutral mapping attributes of a page.
#[derive(Debug, Clone, Copy, PartialEq, Eq, Structural, Default)]
pub struct MappingFlags {
    /// Mapped.
    pub present: bool,
    /// Writable.
    pub writable: bool,
    /// Executable.
    pub executable: bool,
    /// Accessible from user mode.
    pub user: bool,
    /// Copy-on-write.
    pub cow: bool,
    /// Global (kept across address-space switches).
    pub global: bool,
}

impl MappingFlags {
    /// Not mapped.
    pub fn none() -> (r: Self)
        ensures
            r == (MappingFlags { present: false, writable: false, executable: false, user: false, cow: false, global: false }),
    {
        MappingFlags { present: false, writable: false, executable: false, user: false, cow: false, global: false }
    }

    /// Mapped read-only.
    pub fn read_only() -> (r: Self)
        ensures
            r == (MappingFlags { present: true, writable: false, executable: false, user: false, cow: false, global: false }),
    {
        MappingFlags { present: true, writable: false, executable: false, user: false, cow: false, global: false }
    }

    /// Mapped read-write.
    pub fn read_write() -> (r: Self)
        ensures
            r == (MappingFlags { present: true, writable: true, executable: false, user: false, cow: false, global: false }),
    {
        MappingFlags { present: true, writable: true, executable: false, user: false, cow: false, global: false }
    }

    /// Mapped read-execute.
    pub fn read_execute() -> (r: Self)
        ensures
            r == (MappingFlags { present: true, writable: false, executable: true, user: false, cow: false, global: false }),
    {
        MappingFlags { present: true, writable: false, executable: true, user: false, cow: false, global: false }
    }

    /// Mapped read-write for user mode.
    pub fn user_read_write() -> (r: Self)
        ensures
            r == (MappingFlags { present: true, writable: true, executable: false, user: true, cow: false, global: false }),
    {
        MappingFlags { present: true, writable: true, executable: false, user: true, cow: false, global: false }
    }

    /// The same mapping marked copy-on-write, hence read-only.
    pub fn to_cow(self) -> (r: Self)
        ensures
            r == (MappingFlags { cow: true, writable: false, ..self }),
    {
        MappingFlags { cow: true, writable: false, ..self }
    }
}

/// Page-table operation error.
#[derive(Debug, Clone, Copy, PartialEq, Eq, Structural)]
pub enum PageTableError {
    /// The page is mapped already.
    AlreadyMapped,
    /// No frame for an intermediate table.
    OutOfMemory,
    /// The page is not mapped.
    NotMapped,
}

/// Size in bytes of a page of an address space.
pub const MAP_PAGE_SIZE: usize = 4096;

/// Base address of the page that holds `vaddr`.
pub open spec fn page_of(vaddr: usize) -> usize {
    (vaddr - vaddr % 4096) as usize
}

/// The page tables of one address space, seen as a map from each mapped
/// page to its frame and attributes.
pub trait PageMapper {
    /// Each mapped page (by its base address) with its frame and attributes.
    spec fn mappings(&self) -> Map<usize, (u64, MappingFlags)>;

    /// Physical address of `vaddr`: its page's frame, which is page-aligned,
    /// plus the offset in the page; or `None` where the page is not mapped.
    fn translate(&self, vaddr: usize) -> (r: Option<u64>)
        ensures
            match self.mappings().get(page_of(vaddr)) {
                Some(e) => r matches Some(p) && p == e.0 + vaddr % 4096 && e.0 % 4096 == 0,
                None => r is None,
            },
    ;

    /// Attributes of the page that holds `vaddr`.
    fn pte_flags(&self, vaddr: usize) -> (r: Option<MappingFlags>)
        ensures
            r == (match self.mappings().get(page_of(vaddr)) {
                Some(e) => Some(e.1),
                None => None::<MappingFlags>,
            }),
    ;

    /// Maps `page` to `frame`. A page mapped already is refused; a missing
    /// intermediate table may fail to be allocated.
    fn map_page(&mut self, page: usize, frame: u64, flags: MappingFlags) -> (r: Result<(), PageTableError>)
        requires
            page % 4096 == 0,
            frame % 4096 == 0,
        ensures
            r is Ok ==> final(self).mappings() == old(self).mappings().insert(page, (frame, flags)),
            r is Err ==> final(self).mappings() == old(self).mappings(),
            old(self).mappings().contains_key(page) ==> r == Err::<(), PageTableError>(PageTableError::AlreadyMapped),
            r == Err::<(), PageTableError>(PageTableError::AlreadyMapped) || r is Ok
                || r == Err::<(), PageTableError>(PageTableError::OutOfMemory),
            r == Err::<(), PageTableError>(PageTableError::AlreadyMapped) ==> old(self).mappings().contains_key(page),
            forall|f: u64| #[trigger] final(self).frame_data(f) == old(self).frame_data(f),
    ;

    /// Unmaps `page`, giving back its frame.
    fn unmap_page(&mut self, page: usize) -> (r: Result<u64, PageTableError>)
        requires
            page % 4096 == 0,
        ensures
            match old(self).mappings().get(page) {
                Some(e) => r == Ok::<u64, PageTableError>(e.0) && final(self).mappings() == old(self).mappings().remove(page),
                None => r == Err::<u64, PageTableError>(PageTableError::NotMapped)
                    && final(self).mappings() == old(self).mappings(),
            },
            forall|f: u64| #[trigger] final(self).frame_data(f) == old(self).frame_data(f),
    ;

    /// Gives the mapped `page` new attributes by unmapping it and mapping its
    /// frame again; where the second step fails the page stays unmapped.
    fn update_flags(&mut self, page: usize, flags: MappingFlags) -> (r: Result<(), PageTableError>)
        requires
            page % 4096 == 0,
        ensures
            match old(self).mappings().get(page) {
                Some(e) => (r is Ok && final(self).mappings() == old(self).mappings().insert(page, (e.0, flags)))
                    || (r == Err::<(), PageTableError>(PageTableError::OutOfMemory)
                        && final(self).mappings() == old(self).mappings().remove(page)),
                None => r == Err::<(), PageTableError>(PageTableError::NotMapped)
                    && final(self).mappings() == old(self).mappings(),
            },
            forall|f: u64| #[trigger] final(self).frame_data(f) == old(self).frame_data(f),
    ;

    /// The bytes of the page-sized frame at `frame`.
    spec fn frame_data(&self, frame: u64) -> Seq<u8>;

    /// Copies the contents of the frame at `from` to the frame at `to`.
    fn copy_frame(&mut self, from: u64, to: u64)
        ensures
            final(self).mappings() == old(self).mappings(),
            final(self).frame_data(to) == old(self).frame_data(from),
            forall|f: u64| f != to ==> #[trigger] final(self).frame_data(f) == old(self).frame_data(f),
    ;

    /// The page of bytes in the frame at `frame`.
    fn read_frame(&self, frame: u64) -> (r: Vec<u8>)
        ensures
            r@ == self.frame_data(frame),
            r@.len() == 4096,
    ;

    /// Fills the frame at `frame` with the page of bytes `data`.
    fn write_frame(&mut self, frame: u64, data: &[u8])
        requires
            data@.len() == 4096,
        ensures
            final(self).mappings() == old(self).mappings(),
            final(self).frame_data(frame) == data@,
            forall|f: u64| f != frame ==> #[trigger] final(self).frame_data(f) == old(self).frame_data(f),
    ;
}

/// A page of zero bytes.
pub open spec fn zero_page() -> Seq<u8> {
    Seq::new(4096, |i: int| 0u8)
}

/// Page tables kept as a plain map from page to frame, with the frames'
/// contents kept beside them: an address space without hardware behind
/// it, for tools and tests. A frame never written reads as zeros.
pub struct SoftPageTable {
    entries: HashMap<usize, (u64, MappingFlags)>,
    frames: HashMap<u64, Vec<u8>>,
}

impl SoftPageTable {
    /// Every page and every mapped frame is page-aligned; every frame kept
    /// holds a page of bytes.
    #[verifier::type_invariant]
    closed spec fn aligned(&self) -> bool {
        &&& forall|p: usize| #[trigger] self.entries@.contains_key(p) ==> p % 4096 == 0 && self.entries@[p].0 % 4096 == 0
        &&& forall|f: u64| #[trigger] self.frames@.contains_key(f) ==> self.frames@[f]@.len() == 4096
    }

    /// An address space with nothing mapped.
    pub fn new() -> (r: Self)
        ensures
            r.mappings() == Map::<usize, (u64, MappingFlags)>::empty(),
    {
        SoftPageTable { entries: HashMap::new(), frames: HashMap::new() }
    }

    /// Number of mapped pages.
    pub fn mapped_count(&self) -> (r: usize)
        ensures
            r == self.mappings().len(),
    {
        broadcast use vstd::std_specs::hash::group_hash_axioms;
        self.entries.len()
    }
}

impl PageMapper for SoftPageTable {
    closed spec fn mappings(&self) -> Map<usize, (u64, MappingFlags)> {
        self.entries@
    }

    fn translate(&self, vaddr: usize) -> (r: Option<u64>) {
        broadcast use vstd::std_specs::hash::group_hash_axioms;
        proof {
            use_type_invariant(self);
        }
        let off = vaddr % 4096;
        let page = vaddr - off;
        match self.entries.get(&page) {
            Some(e) => {
                let frame = e.0;
                assert(frame % 4096 == 0);
                assert(frame + off <= u64::MAX);
                Some(frame + off as u64)
            },
            None => None,
        }
    }

    fn pte_flags(&self, vaddr: usize) -> (r: Option<MappingFlags>) {
        broadcast use vstd::std_specs::hash::group_hash_axioms;
        let page = vaddr - vaddr % 4096;
        match self.entries.get(&page) {
            Some(e) => Some(e.1),
            None => None,
        }
    }

    fn map_page(&mut self, page: usize, frame: u64, flags: MappingFlags) -> (r: Result<(), PageTableError>) {
        broadcast use vstd::std_specs::hash::group_hash_axioms;
        proof {
            use_type_invariant(&*self);
        }
        if self.entries.contains_key(&page) {
            return Err(PageTableError::AlreadyMapped);
        }
        let mut m: HashMap<usize, (u64, MappingFlags)> = HashMap::new();
        std::mem::swap(&mut m, &mut self.entries);
        m.insert(page, (frame, flags));
        self.entries = m;
        Ok(())
    }

    fn unmap_page(&mut self, page: usize) -> (r: Result<u64, PageTableError>) {
        broadcast use vstd::std_specs::hash::group_hash_axioms;
        proof {
            use_type_invariant(&*self);
        }
        let mut m: HashMap<usize, (u64, MappingFlags)> = HashMap::new();
        std::mem::swap(&mut m, &mut self.entries);
        let removed = m.remove(&page);
        self.entries = m;
        match removed {
            Some(e) => Ok(e.0),
            None => Err(PageTableError::NotMapped),
        }
    }

    fn update_flags(&mut self, page: usize, flags: MappingFlags) -> (r: Result<(), PageTableError>) {
        broadcast use vstd::std_specs::hash::group_hash_axioms;
        proof {
            use_type_invariant(&*self);
        }
        let frame = match self.entries.get(&page) {
            Some(e) => e.0,
            None => return Err(PageTableError::NotMapped),
        };
        let mut m: HashMap<usize, (u64, MappingFlags)> = HashMap::new();
        std::mem::swap(&mut m, &mut self.entries);
        m.insert(page, (frame, flags));
        self.entries = m;
        Ok(())
    }

    closed spec fn frame_data(&self, frame: u64) -> Seq<u8> {
        if self.frames@.contains_key(frame) { self.frames@[frame]@ } else { zero_page() }
    }

    fn copy_frame(&mut self, from: u64, to: u64) {
        let data = self.read_frame(from);
        self.write_frame(to, data.as_slice());
    }

    fn read_frame(&self, frame: u64) -> (r: Vec<u8>) {
        broadcast use vstd::std_specs::hash::group_hash_axioms;
        proof {
            use_type_invariant(self);
        }
        match self.frames.get(&frame) {
            Some(v) => v.clone(),
            None => {
                let mut z: Vec<u8> = Vec::new();
                let mut i: usize = 0;
                while i < MAP_PAGE_SIZE
                    invariant
                        i <= 4096,
                        z@ == Seq::new(i as nat, |k: int| 0u8),
                    decreases 4096 - i,
                {
                    z.push(0u8);
                    i = i + 1;
                    assert(z@ =~= Seq::new(i as nat, |k: int| 0u8));
                }
                z
            },
        }
    }

    fn write_frame(&mut self, frame: u64, data: &[u8]) {
        broadcast use vstd::std_specs::hash::group_hash_axioms;
        proof {
            use_type_invariant(&*self);
        }
        let mut copy: Vec<u8> = Vec::new();
        let mut i: usize = 0;
        while i < data.len()
            invariant
                i <= data@.len(),
                copy@ == data@.subrange(0, i as int),
            decreases data@.len() - i,
        {
            copy.push(data[i]);
            i = i + 1;
            assert(copy@ =~= data@.subrange(0, i as int));
        }
        assert(copy@ =~= data@);
        let mut m: HashMap<u64, Vec<u8>> = HashMap::new();
        std::mem::swap(&mut m, &mut self.frames);
        m.insert(frame, copy);
        self.frames = m;
    }
}

/// Page-table entry bit: the page is present.
pub const PTE_PRESENT: u64 = 0x1;
/// Page-table entry bit: writable.
pub const PTE_WRITABLE: u64 = 0x2;
/// Page-table entry bit: accessible from user mode.
pub const PTE_USER: u64 = 0x4;
/// Page-table entry bit: global.
pub const PTE_GLOBAL: u64 = 0x100;
/// Page-table entry bit free for software use that marks a copy-on-write page.
pub const PTE_COW: u64 = 0x200;
/// Page-table entry bit: not executable.
pub const PTE_NO_EXECUTE: u64 = 0x8000_0000_0000_0000;

/// The page-table entry bits for `f`.
pub open spec fn page_bits(f: MappingFlags) -> u64 {
    (if f.present { PTE_PRESENT } else { 0u64 }) | (if f.writable { PTE_WRITABLE } else { 0u64 })
        | (if f.executable { 0u64 } else { PTE_NO_EXECUTE }) | (if f.user { PTE_USER } else { 0u64 })
        | (if f.cow { PTE_COW } else { 0u64 }) | (if f.global { PTE_GLOBAL } else { 0u64 })
}

/// The attributes that the page-table entry bits `bits` stand for.
pub open spec fn flags_from_bits(bits: u64) -> MappingFlags {
    MappingFlags {
        present: bits & PTE_PRESENT != 0,
        writable: bits & PTE_WRITABLE != 0,
        executable: bits & PTE_NO_EXECUTE == 0,
        user: bits & PTE_USER != 0,
        cow: bits & PTE_COW != 0,
        global: bits & PTE_GLOBAL != 0,
    }
}

impl MappingFlags {
    /// The page-table entry bits for these attributes.
    pub fn to_page_flags(self) -> (r: u64)
        ensures
            r == page_bits(self),
    {
        let present = if self.present { PTE_PRESENT } else { 0u64 };
        let writable = if self.writable { PTE_WRITABLE } else { 0u64 };
        let no_exec = if self.executable { 0u64 } else { PTE_NO_EXECUTE };
        let user = if self.user { PTE_USER } else { 0u64 };
        let cow = if self.cow { PTE_COW } else { 0u64 };
        let global = if self.global { PTE_GLOBAL } else { 0u64 };
        present | writable | no_exec | user | cow | global
    }

    /// The attributes that page-table entry bits stand for.
    pub fn from_page_flags(bits: u64) -> (r: Self)
        ensures
            r == flags_from_bits(bits),
    {
        MappingFlags {
            present: bits & PTE_PRESENT != 0,
            writable: bits & PTE_WRITABLE != 0,
            executable: bits & PTE_NO_EXECUTE == 0,
            user: bits & PTE_USER != 0,
            cow: bits & PTE_COW != 0,
            global: bits & PTE_GLOBAL != 0,
        }
    }
}

/// Attributes survive the trip to page-table entry bits and back.
pub proof fn lemma_page_flags_roundtrip(f: MappingFlags)
    ensures
        flags_from_bits(page_bits(f)) == f,
{
    let (p, w, x, u, c, g) = (f.present, f.writable, f.executable, f.user, f.cow, f.global);
    let b = page_bits(f);
    assert(b == ((if p { 0x1u64 } else { 0u64 }) | (if w { 0x2u64 } else { 0u64 })
        | (if x { 0u64 } else { 0x8000_0000_0000_0000u64 }) | (if u { 0x4u64 } else { 0u64 })
        | (if c { 0x200u64 } else { 0u64 }) | (if g { 0x100u64 } else { 0u64 })));
    assert(
        (b & 0x1u64 != 0) == p && (b & 0x2u64 != 0) == w && (b & 0x8000_0000_0000_0000u64 == 0) == x
            && (b & 0x4u64 != 0) == u && (b & 0x200u64 != 0) == c && (b & 0x100u64 != 0) == g
    ) by (bit_vector)
        requires
            b == ((if p { 0x1u64 } else { 0u64 }) | (if w { 0x2u64 } else { 0u64 })
                | (if x { 0u64 } else { 0x8000_0000_0000_0000u64 }) | (if u { 0x4u64 } else { 0u64 })
                | (if c { 0x200u64 } else { 0u64 }) | (if g { 0x100u64 } else { 0u64 })),
    ;
}

/// The direct-map address of the physical address `phys`, the whole of
/// physical memory being mapped from `direct_map_offset` on.
pub fn phys_to_direct(phys: u64, direct_map_offset: u64) -> (r: u64)
    requires
        phys + direct_map_offset <= u64::MAX,
    ensures
        r == phys + direct_map_offset,
{
    phys + direct_map_offset
}

} // verus!
