use vstd::prelude::*;

verus! {

/// Access permissions of a virtual memory area.
#[derive(Debug, Clone, Copy, PartialEq, Eq, Structural, Default)]
pub struct VmaPerm {
    /// Readable.
    pub read: bool,
    /// Writable.
    pub write: bool,
    /// Executable.
    pub execute: bool,
    /// Accessible from user mode.
    pub user: bool,
}

impl VmaPerm {
    /// No access.
    pub fn none() -> (r: Self)
        ensures
            r == (VmaPerm { read: false, write: false, execute: false, user: false }),
    {
        VmaPerm { read: false, write: false, execute: false, user: false }
    }

    /// Read only.
    pub fn read() -> (r: Self)
        ensures
            r == (VmaPerm { read: true, write: false, execute: false, user: false }),
    {
        VmaPerm { read: true, write: false, execute: false, user: false }
    }

    /// Read and write.
    pub fn read_write() -> (r: Self)
        ensures
            r == (VmaPerm { read: true, write: true, execute: false, user: false }),
    {
        VmaPerm { read: true, write: true, execute: false, user: false }
    }

    /// Read and execute.
    pub fn read_execute() -> (r: Self)
        ensures
            r == (VmaPerm { read: true, write: false, execute: true, user: false }),
    {
        VmaPerm { read: true, write: false, execute: true, user: false }
    }

    /// The same permissions, accessible from user mode.
    pub fn to_user(self) -> (r: Self)
        ensures
            r == (VmaPerm { user: true, ..self }),
    {
        VmaPerm { user: true, ..self }
    }

    /// Readable.
    pub fn is_readable(&self) -> (r: bool)
        ensures
            r == self.read,
    {
        self.read
    }

    /// Writable.
    pub fn is_writable(&self) -> (r: bool)
        ensures
            r == self.write,
    {
        self.write
    }

    /// Executable.
    pub fn is_executable(&self) -> (r: bool)
        ensures
            r == self.execute,
    {
        self.execute
    }

    /// Accessible from user mode.
    pub fn is_user(&self) -> (r: bool)
        ensures
            r == self.user,
    {
        self.user
    }

    /// Whether both permission sets are the same.
    pub fn same_as(&self, other: &Self) -> (r: bool)
        ensures
            r == (*self == *other),
    {
        self.read == other.read && self.write == other.write && self.execute == other.execute
            && self.user == other.user
    }
}

/// Kind flags of a virtual memory area.
#[derive(Debug, Clone, Copy, PartialEq, Eq, Structural, Default)]
pub struct VmaFlags {
    /// Anonymous memory.
    pub anonymous: bool,
    /// Copy-on-write.
    pub cow: bool,
    /// Shared.
    pub shared: bool,
    /// A stack.
    pub stack: bool,
    /// A heap.
    pub heap: bool,
}

impl VmaFlags {
    /// No flag.
    pub fn empty() -> (r: Self)
        ensures
            r == (VmaFlags { anonymous: false, cow: false, shared: false, stack: false, heap: false }),
    {
        VmaFlags { anonymous: false, cow: false, shared: false, stack: false, heap: false }
    }

    /// Whether both flag sets are the same.
    pub fn same_as(&self, other: &Self) -> (r: bool)
        ensures
            r == (*self == *other),
    {
        self.anonymous == other.anonymous && self.cow == other.cow && self.shared == other.shared
            && self.stack == other.stack && self.heap == other.heap
    }
}

/// A virtual memory area `[start, end)`.
#[derive(Debug, Clone, Copy, PartialEq, Eq, Structural)]
pub struct Vma {
    /// First address.
    pub start: usize,
    /// One past the last address.
    pub end: usize,
    /// Permissions.
    pub perms: VmaPerm,
    /// Flags.
    pub flags: VmaFlags,
}

impl Vma {
    /// Length in bytes.
    pub fn len(&self) -> (r: usize)
        requires
            self.start <= self.end,
        ensures
            r == self.end - self.start,
    {
        self.end - self.start
    }

    /// Whether the area holds no byte.
    pub fn is_empty(&self) -> (r: bool)
        ensures
            r == (self.start >= self.end),
    {
        self.start >= self.end
    }

    /// Whether `addr` lies in the area.
    pub fn contains(&self, addr: usize) -> (r: bool)
        ensures
            r == (self.start <= addr < self.end),
    {
        self.start <= addr && addr < self.end
    }

    /// Whether the area meets `[s, e)`.
    pub fn overlaps(&self, s: usize, e: usize) -> (r: bool)
        ensures
            r == (self.start < e && s < self.end),
    {
        self.start < e && s < self.end
    }

    /// Whether both areas have the same permissions and flags.
    pub fn same_attrs(&self, other: &Self) -> (r: bool)
        ensures
            r == (self.perms == other.perms && self.flags == other.flags),
    {
        self.perms.same_as(&other.perms) && self.flags.same_as(&other.flags)
    }
}

/// Error of an area operation.
#[derive(Debug, Clone, Copy, PartialEq, Eq, Structural)]
pub enum VmaError {
    /// The area overlaps an existing one.
    Overlap,
    /// The area is empty.
    Invalid,
}

/// Whether `s` holds non-empty areas in ascending, non-overlapping order.
pub open spec fn areas_ok(s: Seq<Vma>) -> bool {
    &&& forall|i: int| 0 <= i < s.len() ==> (#[trigger] s[i]).start < s[i].end
    &&& forall|i: int, j: int| 0 <= i < j < s.len() ==> (#[trigger] s[i]).end <= (#[trigger] s[j]).start
}

/// Number of leading areas of `s` that start below `start`.
pub open spec fn insertion_point(s: Seq<Vma>, start: usize) -> int
    decreases s.len(),
{
    if s.len() == 0 || s[0].start >= start {
        0
    } else {
        1 + insertion_point(s.drop_first(), start)
    }
}

/// What is left of `v` once `[s, e)` is taken out: the part below `s` and
/// the part from `e` on, each if non-empty.
pub open spec fn pieces(v: Vma, s: usize, e: usize) -> Seq<Vma> {
    let lo_end = if v.end < s { v.end } else { s };
    let hi_start = if v.start > e { v.start } else { e };
    (if v.start < lo_end { seq![Vma { end: lo_end, ..v }] } else { Seq::empty() })
        + (if hi_start < v.end { seq![Vma { start: hi_start, ..v }] } else { Seq::empty() })
}

/// The areas of `vs` with `[s, e)` taken out, in order.
pub open spec fn without_range(vs: Seq<Vma>, s: usize, e: usize) -> Seq<Vma>
    decreases vs.len(),
{
    if vs.len() == 0 {
        Seq::empty()
    } else {
        without_range(vs.drop_last(), s, e) + pieces(vs.last(), s, e)
    }
}

/// Whether the areas at `l` and `r` touch and share permissions and flags.
pub open spec fn mergeable(l: Vma, r: Vma) -> bool {
    l.end == r.start && l.perms == r.perms && l.flags == r.flags
}

/// The areas after merging the area at `index` with its neighbours, left
/// first, as long as they touch and share attributes.
pub open spec fn merge_at_spec(vs: Seq<Vma>, index: int) -> Seq<Vma>
    decreases vs.len(),
{
    if index < 0 || index >= vs.len() {
        vs
    } else if index > 0 && mergeable(vs[index - 1], vs[index]) {
        merge_at_spec(vs.update(index - 1, Vma { end: vs[index].end, ..vs[index - 1] }).remove(index), index - 1)
    } else if index + 1 < vs.len() && mergeable(vs[index], vs[index + 1]) {
        merge_at_spec(vs.update(index, Vma { end: vs[index + 1].end, ..vs[index] }).remove(index + 1), index)
    } else {
        vs
    }
}

/// Whether area `a` takes in area `b`: it spans `b`, with the same
/// permissions and the same flags.
pub open spec fn encloses(a: Vma, b: Vma) -> bool {
    &&& a.start <= b.start
    &&& b.end <= a.end
    &&& a.perms == b.perms
    &&& a.flags == b.flags
}

/// An area of `res` that takes in area `i` of `vs`, if there is one.
pub open spec fn holder(vs: Seq<Vma>, res: Seq<Vma>, i: int) -> int {
    choose|j: int| 0 <= j < res.len() && #[trigger] encloses(res[j], vs[i])
}

/// Every area of `vs` lies within an area of `res` with its own
/// permissions and flags.
pub open spec fn all_enclosed(vs: Seq<Vma>, res: Seq<Vma>) -> bool {
    forall|i: int| 0 <= i < vs.len() ==> 0 <= #[trigger] holder(vs, res, i) < res.len()
        && encloses(res[holder(vs, res, i)], vs[i])
}

proof fn lemma_holder(vs: Seq<Vma>, res: Seq<Vma>, i: int, j: int)
    requires
        0 <= j < res.len(),
        encloses(res[j], vs[i]),
    ensures
        0 <= holder(vs, res, i) < res.len(),
        encloses(res[holder(vs, res, i)], vs[i]),
{
}

proof fn lemma_enclosed_trans(a: Seq<Vma>, b: Seq<Vma>, c: Seq<Vma>)
    requires
        all_enclosed(a, b),
        all_enclosed(b, c),
    ensures
        all_enclosed(a, c),
{
    assert forall|i: int| 0 <= i < a.len() implies 0 <= #[trigger] holder(a, c, i) < c.len()
        && encloses(c[holder(a, c, i)], a[i]) by {
        let j = holder(a, b, i);
        let k = holder(b, c, j);
        lemma_holder(a, c, i, k);
    }
}

proof fn lemma_enclosed_refl(vs: Seq<Vma>)
    ensures
        all_enclosed(vs, vs),
{
    assert forall|i: int| 0 <= i < vs.len() implies 0 <= #[trigger] holder(vs, vs, i) < vs.len()
        && encloses(vs[holder(vs, vs, i)], vs[i]) by {
        lemma_holder(vs, vs, i, i);
    }
}

/// Every area ends no lower than it starts.
pub open spec fn spans_ok(vs: Seq<Vma>) -> bool {
    forall|i: int| 0 <= i < vs.len() ==> (#[trigger] vs[i]).start <= vs[i].end
}

/// Merging joins only areas of the same kind: after `merge_at`, every
/// original area lies within a resulting area that has its permissions and
/// its flags, so two areas with different permissions or flags never end
/// up in one area.
pub proof fn lemma_merge_joins_only_alike(vs: Seq<Vma>, index: int)
    requires
        spans_ok(vs),
    ensures
        all_enclosed(vs, merge_at_spec(vs, index)),
    decreases vs.len(),
{
    if index < 0 || index >= vs.len() {
        lemma_enclosed_refl(vs);
    } else if index > 0 && mergeable(vs[index - 1], vs[index]) {
        let m = Vma { end: vs[index].end, ..vs[index - 1] };
        let ws = vs.update(index - 1, m).remove(index);
        lemma_step_enclosed(vs, index - 1, m, ws);
        lemma_merge_joins_only_alike(ws, index - 1);
        lemma_enclosed_trans(vs, ws, merge_at_spec(ws, index - 1));
    } else if index + 1 < vs.len() && mergeable(vs[index], vs[index + 1]) {
        let m = Vma { end: vs[index + 1].end, ..vs[index] };
        let ws = vs.update(index, m).remove(index + 1);
        lemma_step_enclosed(vs, index, m, ws);
        lemma_merge_joins_only_alike(ws, index);
        lemma_enclosed_trans(vs, ws, merge_at_spec(ws, index));
    } else {
        lemma_enclosed_refl(vs);
    }
}

/// Whether the area at `j` of `vs` touches a neighbour with the same
/// permissions and flags.
pub open spec fn has_alike_neighbour(vs: Seq<Vma>, j: int) -> bool {
    ||| j > 0 && mergeable(vs[j - 1], vs[j])
    ||| j + 1 < vs.len() && mergeable(vs[j], vs[j + 1])
}

/// Merging goes as far as it can: after `merge_at(index)` the area that
/// now holds the original area `index` touches no neighbour with its own
/// permissions and flags, so nothing is left that could still join it.
pub proof fn lemma_merge_leaves_no_alike_neighbour(vs: Seq<Vma>, index: int)
    requires
        spans_ok(vs),
        0 <= index < vs.len(),
    ensures
        exists|j: int| 0 <= j < merge_at_spec(vs, index).len()
            && encloses(merge_at_spec(vs, index)[j], vs[index])
            && !has_alike_neighbour(merge_at_spec(vs, index), j),
    decreases vs.len(),
{
    let res = merge_at_spec(vs, index);
    if index > 0 && mergeable(vs[index - 1], vs[index]) {
        let m = Vma { end: vs[index].end, ..vs[index - 1] };
        let ws = vs.update(index - 1, m).remove(index);
        lemma_step_enclosed(vs, index - 1, m, ws);
        assert(ws[index - 1] == m);
        lemma_merge_leaves_no_alike_neighbour(ws, index - 1);
        let j = choose|j: int| 0 <= j < res.len() && encloses(res[j], ws[index - 1])
            && !has_alike_neighbour(res, j);
        assert(encloses(res[j], vs[index]));
    } else if index + 1 < vs.len() && mergeable(vs[index], vs[index + 1]) {
        let m = Vma { end: vs[index + 1].end, ..vs[index] };
        let ws = vs.update(index, m).remove(index + 1);
        lemma_step_enclosed(vs, index, m, ws);
        assert(ws[index] == m);
        lemma_merge_leaves_no_alike_neighbour(ws, index);
        let j = choose|j: int| 0 <= j < res.len() && encloses(res[j], ws[index])
            && !has_alike_neighbour(res, j);
        assert(encloses(res[j], vs[index]));
    } else {
        assert(res == vs);
        assert(encloses(res[index], vs[index]) && !has_alike_neighbour(res, index));
    }
}

/// Whether some area of `vs` holds address `a`.
pub open spec fn maps_addr(vs: Seq<Vma>, a: int) -> bool {
    exists|i: int| 0 <= i < vs.len() && #[trigger] vs[i].start <= a && a < vs[i].end
}

/// Merging keeps the address space: after `merge_at`, exactly the
/// addresses that were mapped before are mapped.
pub proof fn lemma_merge_keeps_addresses(vs: Seq<Vma>, index: int, a: int)
    requires
        spans_ok(vs),
    ensures
        maps_addr(merge_at_spec(vs, index), a) == maps_addr(vs, a),
    decreases vs.len(),
{
    if index < 0 || index >= vs.len() {
    } else if index > 0 && mergeable(vs[index - 1], vs[index]) {
        let m = Vma { end: vs[index].end, ..vs[index - 1] };
        let ws = vs.update(index - 1, m).remove(index);
        lemma_step_enclosed(vs, index - 1, m, ws);
        lemma_step_keeps_addr(vs, index - 1, m, ws, a);
        lemma_merge_keeps_addresses(ws, index - 1, a);
    } else if index + 1 < vs.len() && mergeable(vs[index], vs[index + 1]) {
        let m = Vma { end: vs[index + 1].end, ..vs[index] };
        let ws = vs.update(index, m).remove(index + 1);
        lemma_step_enclosed(vs, index, m, ws);
        lemma_step_keeps_addr(vs, index, m, ws, a);
        lemma_merge_keeps_addresses(ws, index, a);
    } else {
    }
}

/// One merge of two touching areas maps the same addresses.
proof fn lemma_step_keeps_addr(vs: Seq<Vma>, k: int, m: Vma, ws: Seq<Vma>, a: int)
    requires
        0 <= k,
        k + 1 < vs.len(),
        ws == vs.update(k, m).remove(k + 1),
        m.start == vs[k].start,
        m.end == vs[k + 1].end,
        vs[k].end == vs[k + 1].start,
        spans_ok(vs),
    ensures
        maps_addr(ws, a) == maps_addr(vs, a),
{
    assert(vs[k].start <= vs[k].end && vs[k + 1].start <= vs[k + 1].end);
    if maps_addr(vs, a) {
        let i = choose|i: int| 0 <= i < vs.len() && #[trigger] vs[i].start <= a && a < vs[i].end;
        if i < k {
            assert(ws[i] == vs[i]);
        } else if i == k || i == k + 1 {
            assert(ws[k] == m);
            assert(ws[k].start <= a && a < ws[k].end);
        } else {
            assert(ws[i - 1] == vs[i]);
        }
    }
    if maps_addr(ws, a) {
        let j = choose|j: int| 0 <= j < ws.len() && #[trigger] ws[j].start <= a && a < ws[j].end;
        if j < k {
            assert(ws[j] == vs[j]);
        } else if j == k {
            assert(ws[k] == m);
            if a < vs[k].end {
                assert(vs[k].start <= a && a < vs[k].end);
            } else {
                assert(vs[k + 1].start <= a && a < vs[k + 1].end);
            }
        } else {
            assert(ws[j] == vs[j + 1]);
        }
    }
}

/// One merge of areas `k` and `k + 1` into `m`, which encloses both.
proof fn lemma_step_enclosed(vs: Seq<Vma>, k: int, m: Vma, ws: Seq<Vma>)
    requires
        0 <= k,
        k + 1 < vs.len(),
        ws == vs.update(k, m).remove(k + 1),
        spans_ok(vs),
        m.start == vs[k].start,
        m.end == vs[k + 1].end,
        vs[k].end == vs[k + 1].start,
        m.perms == vs[k].perms && m.perms == vs[k + 1].perms,
        m.flags == vs[k].flags && m.flags == vs[k + 1].flags,
    ensures
        all_enclosed(vs, ws),
        spans_ok(ws),
{
    assert(vs[k].start <= vs[k].end && vs[k + 1].start <= vs[k + 1].end);
    assert(encloses(m, vs[k]) && encloses(m, vs[k + 1]));
    assert forall|j: int| 0 <= j < ws.len() implies (#[trigger] ws[j]).start <= ws[j].end by {
        if j < k {
            assert(ws[j] == vs[j]);
        } else if j > k {
            assert(ws[j] == vs[j + 1]);
        }
    }
    assert forall|i: int| 0 <= i < vs.len() implies 0 <= #[trigger] holder(vs, ws, i) < ws.len()
        && encloses(ws[holder(vs, ws, i)], vs[i]) by {
        if i < k {
            assert(ws[i] == vs[i]);
            lemma_holder(vs, ws, i, i);
        } else if i == k || i == k + 1 {
            assert(ws[k] == m);
            lemma_holder(vs, ws, i, k);
        } else {
            assert(ws[i - 1] == vs[i]);
            lemma_holder(vs, ws, i, i - 1);
        }
    }
}

/// Sum of the lengths of the first `k` areas.
pub open spec fn usage(vs: Seq<Vma>, k: nat) -> nat
    decreases k,
{
    if k == 0 || k > vs.len() { 0 } else { usage(vs, (k - 1) as nat) + (vs[k - 1].end - vs[k - 1].start) as nat }
}

/// The areas of an address space, ascending and non-overlapping.
pub struct VmaManager {
    vmas: Vec<Vma>,
}

impl View for VmaManager {
    type V = Seq<Vma>;

    closed spec fn view(&self) -> Seq<Vma> {
        self.vmas@
    }
}

pub proof fn lemma_insertion_point(s: Seq<Vma>, start: usize, k: int)
    requires
        areas_ok(s),
        0 <= k <= s.len(),
        forall|i: int| 0 <= i < k ==> (#[trigger] s[i]).start < start,
        k == s.len() || s[k].start >= start,
    ensures
        insertion_point(s, start) == k,
    decreases s.len(),
{
    if s.len() > 0 && s[0].start < start {
        let t = s.drop_first();
        assert(areas_ok(t)) by {
            assert forall|i: int, j: int| 0 <= i < j < t.len() implies (#[trigger] t[i]).end <= (#[trigger] t[j]).start by {
                assert(t[i] == s[i + 1] && t[j] == s[j + 1]);
            }
        }
        assert forall|i: int| 0 <= i < k - 1 implies (#[trigger] t[i]).start < start by {
            assert(t[i] == s[i + 1]);
        }
        lemma_insertion_point(t, start, k - 1);
    }
}

impl VmaManager {
    /// The invariant: areas non-empty, ascending, non-overlapping.
    pub open spec fn wf(&self) -> bool {
        areas_ok(self@)
    }

    /// No area.
    pub fn new() -> (r: Self)
        ensures
            r.wf(),
            r@ == Seq::<Vma>::empty(),
    {
        VmaManager { vmas: Vec::new() }
    }

    /// Number of areas.
    pub fn count(&self) -> (r: usize)
        ensures
            r == self@.len(),
    {
        self.vmas.len()
    }

    /// Sum of the lengths of all areas.
    pub fn usage_bytes(&self) -> (r: usize)
        requires
            self.wf(),
            usage(self@, self@.len()) <= usize::MAX,
        ensures
            r == usage(self@, self@.len()),
    {
        let mut sum: usize = 0;
        let mut i: usize = 0;
        while i < self.vmas.len()
            invariant
                self.wf(),
                i <= self@.len(),
                sum == usage(self@, i as nat),
                usage(self@, self@.len()) <= usize::MAX,
            decreases self@.len() - i,
        {
            proof {
                lemma_usage_mono(self@, (i + 1) as nat, self@.len());
            }
            let v = self.vmas[i];
            sum = sum + v.len();
            i = i + 1;
        }
        sum
    }

    /// The areas, in order.
    pub fn iter(&self) -> (r: std::slice::Iter<'_, Vma>)
        ensures
            vstd::std_specs::slice::into_iter_elts(r) == self@,
    {
        broadcast use vstd::std_specs::slice::axiom_spec_slice_iter;
        let sl = self.vmas.as_slice();
        let r = sl.iter();
        assert(sl@.as_ref().unref() =~= sl@);
        r
    }

    fn insertion_point(&self, start: usize) -> (r: usize)
        requires
            self.wf(),
        ensures
            r == insertion_point(self@, start),
            r <= self@.len(),
            forall|i: int| 0 <= i < r ==> (#[trigger] self@[i]).start < start,
            r < self@.len() ==> self@[r as int].start >= start,
    {
        let mut lo: usize = 0;
        let mut hi: usize = self.vmas.len();
        while lo < hi
            invariant
                self.wf(),
                lo <= hi <= self@.len(),
                forall|i: int| 0 <= i < lo ==> (#[trigger] self@[i]).start < start,
                forall|i: int| hi <= i < self@.len() ==> (#[trigger] self@[i]).start >= start,
            decreases hi - lo,
        {
            let mid = lo + (hi - lo) / 2;
            if self.vmas[mid].start < start {
                proof {
                    assert forall|i: int| 0 <= i <= mid implies (#[trigger] self@[i]).start < start by {
                        if i < mid {
                            assert(self@[i].end <= self@[mid as int].start);
                        }
                    }
                }
                lo = mid + 1;
            } else {
                proof {
                    assert forall|i: int| mid <= i < self@.len() implies (#[trigger] self@[i]).start >= start by {
                        if i > mid {
                            assert(self@[mid as int].end <= self@[i].start);
                        }
                    }
                }
                hi = mid;
            }
        }
        proof {
            lemma_insertion_point(self@, start, lo as int);
        }
        lo
    }

    /// Adds `vma`; `Invalid` when it is empty, `Overlap` when it meets an
    /// existing area.
    pub fn insert(&mut self, vma: Vma) -> (r: Result<(), VmaError>)
        requires
            old(self).wf(),
        ensures
            final(self).wf(),
            vma.start >= vma.end ==> r == Err::<(), VmaError>(VmaError::Invalid) && final(self)@ == old(self)@,
            vma.start < vma.end && (exists|i: int| 0 <= i < old(self)@.len()
                && #[trigger] old(self)@[i].start < vma.end && vma.start < old(self)@[i].end)
                ==> r == Err::<(), VmaError>(VmaError::Overlap) && final(self)@ == old(self)@,
            vma.start < vma.end && !(exists|i: int| 0 <= i < old(self)@.len()
                && #[trigger] old(self)@[i].start < vma.end && vma.start < old(self)@[i].end)
                ==> r == Ok::<(), VmaError>(()) && final(self)@ == old(self)@.insert(insertion_point(old(self)@, vma.start), vma),
    {
        if vma.is_empty() {
            return Err(VmaError::Invalid);
        }
        let i = self.insertion_point(vma.start);
        if i > 0 {
            let prev = self.vmas[i - 1];
            if prev.end > vma.start {
                assert(self@[i - 1].start < vma.end);
                return Err(VmaError::Overlap);
            }
        }
        if i < self.vmas.len() {
            let next = self.vmas[i];
            if vma.end > next.start {
                assert(self@[i as int].start < vma.end && vma.start < self@[i as int].end);
                return Err(VmaError::Overlap);
            }
        }
        let ghost before = self@;
        proof {
            assert forall|j: int| 0 <= j < before.len() implies !(#[trigger] before[j].start < vma.end && vma.start < before[j].end) by {
                if j < i {
                    if j < i - 1 {
                        assert(before[j].end <= before[i - 1].start);
                    }
                } else {
                    if j > i {
                        assert(before[i as int].end <= before[j].start);
                    }
                }
            }
        }
        self.vmas.insert(i, vma);
        assert(self@ =~= before.insert(i as int, vma));
        assert forall|a: int, b: int| 0 <= a < b < self@.len() implies (#[trigger] self@[a]).end <= (#[trigger] self@[b]).start by {
            if a < i && b == i {
                if a < i - 1 {
                    assert(before[a].end <= before[i - 1].start);
                }
            } else if a == i && b > i {
                if b > i + 1 {
                    assert(before[i as int].end <= before[b - 1].start);
                }
            } else if a < i && b > i {
                assert(before[a].end <= before[b - 1].start);
            } else if a > i {
                assert(before[a - 1].end <= before[b - 1].start);
            }
        }
        Ok(())
    }

    fn find_index(&self, addr: usize) -> (r: Option<usize>)
        requires
            self.wf(),
        ensures
            r is None <==> !(exists|i: int| 0 <= i < self@.len() && #[trigger] self@[i].start <= addr && addr < self@[i].end),
            r matches Some(i) ==> i < self@.len() && self@[i as int].start <= addr < self@[i as int].end,
    {
        let i = self.insertion_point(addr);
        if i < self.vmas.len() {
            if self.vmas[i].contains(addr) {
                return Some(i);
            }
        }
        if i > 0 {
            if self.vmas[i - 1].contains(addr) {
                return Some(i - 1);
            }
        }
        proof {
            assert forall|j: int| 0 <= j < self@.len() implies !(#[trigger] self@[j].start <= addr && addr < self@[j].end) by {
                if j < i - 1 {
                    assert(self@[j].end <= self@[i - 1].start);
                } else if j > i {
                    assert(self@[i as int].end <= self@[j].start);
                }
            }
        }
        None
    }

    /// The area that holds `addr`, if any.
    pub fn find(&self, addr: usize) -> (r: Option<&Vma>)
        requires
            self.wf(),
        ensures
            r is None <==> !(exists|i: int| 0 <= i < self@.len() && #[trigger] self@[i].start <= addr && addr < self@[i].end),
            r matches Some(v) ==> self@.contains(*v) && v.start <= addr < v.end,
    {
        match self.find_index(addr) {
            Some(i) => {
                assert(self@[i as int] == self@[i as int]);
                Some(&self.vmas[i])
            },
            None => None,
        }
    }

    /// The area that holds `addr`, for changing it, if any.
    pub fn find_mut(&mut self, addr: usize) -> (r: Option<&mut Vma>)
        requires
            old(self).wf(),
        ensures
            r is None <==> !(exists|i: int| 0 <= i < old(self)@.len() && #[trigger] old(self)@[i].start <= addr && addr < old(self)@[i].end),
            r is None ==> final(self)@ == old(self)@,
            r is Some ==> exists|i: int| 0 <= i < old(self)@.len() && old(self)@[i].start <= addr < old(self)@[i].end
                && *r->Some_0 == old(self)@[i] && final(self)@ == old(self)@.update(i, *final(r->Some_0)),
    {
        match self.find_index(addr) {
            Some(i) => Some(&mut self.vmas[i]),
            None => None,
        }
    }

    /// Index of an area meeting `[s, e)`: the one just below the insertion
    /// point of `s` if it meets the range, else the one at it; `None` when
    /// neither does.
    pub fn find_range(&self, s: usize, e: usize) -> (r: Option<usize>)
        requires
            self.wf(),
        ensures
            ({
                let i = insertion_point(self@, s);
                r == if i > 0 && self@[i - 1].start < e && s < self@[i - 1].end {
                    Some((i - 1) as usize)
                } else if i < self@.len() && self@[i].start < e && s < self@[i].end {
                    Some(i as usize)
                } else {
                    None::<usize>
                }
            }),
            s < e ==> (r is Some <==> exists|j: int| 0 <= j < self@.len() && #[trigger] self@[j].start < e && s < self@[j].end),
            r matches Some(j) ==> j < self@.len() && self@[j as int].start < e && s < self@[j as int].end,
    {
        let i = self.insertion_point(s);
        if i > 0 {
            if self.vmas[i - 1].overlaps(s, e) {
                return Some(i - 1);
            }
        }
        if i < self.vmas.len() {
            if self.vmas[i].overlaps(s, e) {
                return Some(i);
            }
        }
        proof {
            if s < e {
                assert forall|j: int| 0 <= j < self@.len() implies !(#[trigger] self@[j].start < e && s < self@[j].end) by {
                    if j < i - 1 {
                        assert(self@[j].end <= self@[i - 1].start);
                    } else if j > i {
                        assert(self@[i as int].end <= self@[j].start);
                    }
                }
            }
        }
        None
    }

    /// The area at `index`, if any.
    pub fn get(&self, index: usize) -> (r: Option<&Vma>)
        ensures
            index < self@.len() ==> r == Some(&self@[index as int]),
            index >= self@.len() ==> r is None,
    {
        if index < self.vmas.len() {
            Some(&self.vmas[index])
        } else {
            None
        }
    }
}


/// Replacing an area by ordered areas that lie within it keeps the areas
/// ordered.
proof fn lemma_splice(vs: Seq<Vma>, i: int, p: Seq<Vma>)
    requires
        areas_ok(vs),
        0 <= i < vs.len(),
        areas_ok(p),
        forall|k: int| 0 <= k < p.len() ==> vs[i].start <= (#[trigger] p[k]).start && p[k].end <= vs[i].end,
    ensures
        areas_ok(vs.subrange(0, i) + p + vs.subrange(i + 1, vs.len() as int)),
{
    let r = vs.subrange(0, i) + p + vs.subrange(i + 1, vs.len() as int);
    let pl = p.len() as int;
    assert forall|a: int| 0 <= a < r.len() implies (#[trigger] r[a]).start < r[a].end by {
        if a < i {
            assert(r[a] == vs[a]);
        } else if a < i + pl {
            assert(r[a] == p[a - i]);
        } else {
            assert(r[a] == vs[a - pl + 1]);
        }
    }
    assert forall|a: int, b: int| 0 <= a < b < r.len() implies (#[trigger] r[a]).end <= (#[trigger] r[b]).start by {
        if b < i {
            assert(r[a] == vs[a] && r[b] == vs[b]);
        } else if b < i + pl {
            assert(r[b] == p[b - i]);
            if a < i {
                assert(r[a] == vs[a]);
                assert(vs[a].end <= vs[i].start);
            } else {
                assert(r[a] == p[a - i]);
            }
        } else {
            assert(r[b] == vs[b - pl + 1]);
            if a < i {
                assert(r[a] == vs[a]);
                assert(vs[a].end <= vs[b - pl + 1].start);
            } else if a < i + pl {
                assert(r[a] == p[a - i]);
                assert(vs[i].end <= vs[b - pl + 1].start);
            } else {
                assert(r[a] == vs[a - pl + 1]);
            }
        }
    }
}

/// Areas that start at or after `e` are left whole.
proof fn lemma_without_range_tail(vs: Seq<Vma>, s: usize, e: usize, j: int)
    requires
        s <= e,
        0 <= j <= vs.len(),
        forall|k: int| j <= k < vs.len() ==> (#[trigger] vs[k]).start >= e && vs[k].start < vs[k].end,
    ensures
        without_range(vs, s, e) == without_range(vs.subrange(0, j), s, e) + vs.subrange(j, vs.len() as int),
    decreases vs.len() - j,
{
    if j == vs.len() {
        assert(vs.subrange(0, j) =~= vs);
        assert(vs.subrange(j, vs.len() as int) =~= Seq::<Vma>::empty());
    } else {
        let v = vs.last();
        let t = vs.drop_last();
        assert forall|k: int| j <= k < t.len() implies (#[trigger] t[k]).start >= e && t[k].start < t[k].end by {
            assert(t[k] == vs[k]);
        }
        lemma_without_range_tail(t, s, e, j);
        assert(t.subrange(0, j) =~= vs.subrange(0, j));
        assert(pieces(v, s, e) =~= seq![v]);
        assert(vs.subrange(j, vs.len() as int) =~= t.subrange(j, t.len() as int).push(v));
    }
}

impl VmaManager {
    /// Takes `[s, e)` out of every area: areas inside it go, an area that
    /// holds it is split in two, areas that straddle an end are trimmed.
    pub fn remove_range(&mut self, s: usize, e: usize)
        requires
            old(self).wf(),
            s <= e,
        ensures
            final(self).wf(),
            final(self)@ == without_range(old(self)@, s, e),
    {
        let ghost old_v = self@;
        let ghost mut j: int = 0;
        let mut i: usize = 0;
        loop
            invariant_except_break
                areas_ok(old_v),
                s <= e,
                0 <= j <= old_v.len(),
                self@ == without_range(old_v.subrange(0, j), s, e) + old_v.subrange(j, old_v.len() as int),
                i == without_range(old_v.subrange(0, j), s, e).len(),
                areas_ok(self@),
            ensures
                areas_ok(self@),
                self@ == without_range(old_v, s, e),
            decreases old_v.len() - j,
        {
            if i >= self.vmas.len() {
                proof {
                    assert(self@.len() == i + (old_v.len() - j));
                    assert(j == old_v.len());
                    assert(old_v.subrange(0, j) =~= old_v);
                    assert(old_v.subrange(j, old_v.len() as int) =~= Seq::<Vma>::empty());
                    assert(self@ =~= without_range(old_v, s, e));
                }
                break;
            }
            let v = self.vmas[i];
            let ghost w = without_range(old_v.subrange(0, j), s, e);
            let ghost before = self@;
            proof {
                assert(before[i as int] == old_v[j]);
                let pre = old_v.subrange(0, j + 1);
                assert(pre.drop_last() =~= old_v.subrange(0, j));
                assert(pre.last() == old_v[j]);
                assert(old_v.subrange(j + 1, old_v.len() as int) =~= before.subrange(i + 1, before.len() as int));
                assert(before.subrange(0, i as int) =~= w);
            }
            if v.end <= s {
                proof {
                    assert(pieces(v, s, e) =~= seq![v]);
                    j = j + 1;
                    assert(self@ =~= without_range(old_v.subrange(0, j), s, e) + old_v.subrange(j, old_v.len() as int));
                }
                i = i + 1;
                continue;
            }
            if v.start >= e {
                proof {
                    assert forall|k: int| j <= k < old_v.len() implies (#[trigger] old_v[k]).start >= e && old_v[k].start < old_v[k].end by {
                        if k > j {
                            assert(old_v[j].end <= old_v[k].start);
                        }
                    }
                    lemma_without_range_tail(old_v, s, e, j);
                }
                break;
            }
            if v.start < s && v.end > e {
                let right = Vma { start: e, end: v.end, perms: v.perms, flags: v.flags };
                let left = Vma { end: s, ..v };
                self.vmas.set(i, left);
                self.vmas.insert(i + 1, right);
                let len_now = self.vmas.len();
                assert(i + 1 < len_now);
                proof {
                    assert(pieces(v, s, e) =~= seq![left, right]);
                    lemma_splice(before, i as int, pieces(v, s, e));
                    assert(self@ =~= before.subrange(0, i as int) + pieces(v, s, e) + before.subrange(i + 1, before.len() as int));
                    j = j + 1;
                    assert(self@ =~= without_range(old_v.subrange(0, j), s, e) + old_v.subrange(j, old_v.len() as int));
                }
                i = i + 2;
                continue;
            }
            let new_start = if v.start < s { s } else { v.start };
            let new_end = if v.end > e { e } else { v.end };
            if new_start <= v.start && new_end >= v.end {
                self.vmas.remove(i);
                proof {
                    assert(pieces(v, s, e) =~= Seq::<Vma>::empty());
                    lemma_splice(before, i as int, pieces(v, s, e));
                    assert(self@ =~= before.subrange(0, i as int) + pieces(v, s, e) + before.subrange(i + 1, before.len() as int));
                    j = j + 1;
                    assert(self@ =~= without_range(old_v.subrange(0, j), s, e) + old_v.subrange(j, old_v.len() as int));
                }
                continue;
            }
            if new_start > v.start && new_end >= v.end {
                self.vmas.set(i, Vma { end: new_start, ..v });
                proof {
                    assert(pieces(v, s, e) =~= seq![Vma { end: s, ..v }]);
                    lemma_splice(before, i as int, pieces(v, s, e));
                    assert(self@ =~= before.subrange(0, i as int) + pieces(v, s, e) + before.subrange(i + 1, before.len() as int));
                    j = j + 1;
                    assert(self@ =~= without_range(old_v.subrange(0, j), s, e) + old_v.subrange(j, old_v.len() as int));
                }
                i = i + 1;
                continue;
            }
            self.vmas.set(i, Vma { start: new_end, ..v });
            proof {
                assert(pieces(v, s, e) =~= seq![Vma { start: e, ..v }]);
                lemma_splice(before, i as int, pieces(v, s, e));
                assert(self@ =~= before.subrange(0, i as int) + pieces(v, s, e) + before.subrange(i + 1, before.len() as int));
                j = j + 1;
                assert(self@ =~= without_range(old_v.subrange(0, j), s, e) + old_v.subrange(j, old_v.len() as int));
            }
            i = i + 1;
        }
    }
}


/// After `[s, e)` is taken out, no area meets it.
pub proof fn lemma_removed_range_empty(vs: Seq<Vma>, s: usize, e: usize)
    requires
        s <= e,
    ensures
        forall|k: int| 0 <= k < without_range(vs, s, e).len()
            ==> !((#[trigger] without_range(vs, s, e)[k]).start < e && s < without_range(vs, s, e)[k].end),
    decreases vs.len(),
{
    if vs.len() > 0 {
        lemma_removed_range_empty(vs.drop_last(), s, e);
        let w = without_range(vs.drop_last(), s, e);
        let p = pieces(vs.last(), s, e);
        assert forall|k: int| 0 <= k < (w + p).len() implies !((#[trigger] (w + p)[k]).start < e && s < (w + p)[k].end) by {
            if k < w.len() {
                assert((w + p)[k] == w[k]);
            } else {
                assert((w + p)[k] == p[k - w.len()]);
            }
        }
    }
}

impl VmaManager {
    /// Merges the area at `index` with its left neighbour, then its right
    /// one, again and again, while they touch and share attributes.
    pub fn merge_at(&mut self, index: usize)
        requires
            old(self).wf(),
        ensures
            final(self).wf(),
            final(self)@ == merge_at_spec(old(self)@, index as int),
            all_enclosed(old(self)@, final(self)@),
            index < old(self)@.len() ==> exists|j: int| 0 <= j < final(self)@.len()
                && encloses(final(self)@[j], old(self)@[index as int])
                && !has_alike_neighbour(final(self)@, j),
            forall|a: int| #[trigger] maps_addr(final(self)@, a) == maps_addr(old(self)@, a),
        decreases old(self)@.len(),
    {
        proof {
            assert forall|a: int| #[trigger] maps_addr(merge_at_spec(old(self)@, index as int), a)
                == maps_addr(old(self)@, a) by {
                lemma_merge_keeps_addresses(old(self)@, index as int, a);
            }
            lemma_merge_joins_only_alike(old(self)@, index as int);
            if index < old(self)@.len() {
                lemma_merge_leaves_no_alike_neighbour(old(self)@, index as int);
            }
        }
        if index >= self.vmas.len() {
            return;
        }
        if index > 0 {
            let l = self.vmas[index - 1];
            let r = self.vmas[index];
            if l.end == r.start && l.same_attrs(&r) {
                let ghost before = self@;
                self.vmas.set(index - 1, Vma { end: r.end, ..l });
                self.vmas.remove(index);
                proof {
                    let m = Vma { end: r.end, ..l };
                    assert(self@ =~= before.update(index - 1, m).remove(index as int));
                    assert(self@ =~= before.subrange(0, index - 1) + seq![m] + before.subrange(index + 1, before.len() as int));
                    let joined = Vma { start: l.start, end: r.end, perms: l.perms, flags: l.flags };
                    assert forall|a: int, b: int| 0 <= a < b < self@.len() implies (#[trigger] self@[a]).end <= (#[trigger] self@[b]).start by {
                        if a < index - 1 && b == index - 1 {
                            assert(before[a].end <= before[index - 1].start);
                        } else if a == index - 1 && b > a {
                            assert(self@[b] == before[b + 1]);
                            assert(before[index as int].end <= before[b + 1].start || b + 1 == index);
                        } else if a < index - 1 && b > index - 1 {
                            assert(self@[b] == before[b + 1]);
                            assert(before[a].end <= before[b + 1].start);
                        } else if a > index - 1 {
                            assert(self@[a] == before[a + 1] && self@[b] == before[b + 1]);
                        }
                    }
                    assert forall|a: int| 0 <= a < self@.len() implies (#[trigger] self@[a]).start < self@[a].end by {
                        if a >= index {
                            assert(self@[a] == before[a + 1]);
                        }
                    }
                }
                self.merge_at(index - 1);
                return;
            }
        }
        if index + 1 < self.vmas.len() {
            let l = self.vmas[index];
            let r = self.vmas[index + 1];
            if l.end == r.start && l.same_attrs(&r) {
                let ghost before = self@;
                self.vmas.set(index, Vma { end: r.end, ..l });
                self.vmas.remove(index + 1);
                proof {
                    let m = Vma { end: r.end, ..l };
                    assert(self@ =~= before.update(index as int, m).remove(index + 1));
                    assert forall|a: int, b: int| 0 <= a < b < self@.len() implies (#[trigger] self@[a]).end <= (#[trigger] self@[b]).start by {
                        if a < index && b == index {
                            assert(before[a].end <= before[index as int].start);
                        } else if a == index && b > a {
                            assert(self@[b] == before[b + 1]);
                            assert(before[index + 1].end <= before[b + 1].start || b == index);
                        } else if a < index && b > index {
                            assert(self@[b] == before[b + 1]);
                            assert(before[a].end <= before[b + 1].start);
                        } else if a > index {
                            assert(self@[a] == before[a + 1] && self@[b] == before[b + 1]);
                        }
                    }
                    assert forall|a: int| 0 <= a < self@.len() implies (#[trigger] self@[a]).start < self@[a].end by {
                        if a > index {
                            assert(self@[a] == before[a + 1]);
                        }
                    }
                }
                self.merge_at(index);
            }
        }
    }
}

proof fn lemma_usage_mono(vs: Seq<Vma>, a: nat, b: nat)
    requires
        a <= b <= vs.len(),
        areas_ok(vs),
    ensures
        usage(vs, a) <= usage(vs, b),
    decreases b - a,
{
    if a < b {
        lemma_usage_mono(vs, a, (b - 1) as nat);
    }
}

} // verus!
