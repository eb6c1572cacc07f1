//! Physical memory: a pool of page frames, their contents, their share counts and the
//! default page.
use vstd::prelude::*;

use crate::errno::Errno;
use crate::memory::{is_page_aligned, PAGE_SIZE};
use crate::ref_counter::{count_of, PhysRefCounter};

verus! {

/// Address of the first frame of the pool. Address `0` is never a frame.
pub const FRAME_BASE: usize = 0x1000;

/// The largest number of frames a pool can hold.
pub const MAX_FRAMES: usize = 0x1_0000;

/// The zone a frame is allocated from.
#[derive(Clone, Copy, Debug, PartialEq, Eq, Structural)]
pub enum Zone {
    /// Memory of the kernel itself, such as the default page.
    Kernel,
    /// Memory handed to user processes.
    User,
}

/// The physical memory of the machine: which frames are allocated and from which zone, what
/// they hold, how many virtual pages share each, and the default page.
pub struct PhysMem {
    frames: Vec<Option<Zone>>,
    data: Vec<u8>,
    refs: PhysRefCounter,
    default_page: Option<usize>,
    /// The identifier of the translation context the processor uses, once one is bound.
    active: Option<u64>,
    /// The identifier the next translation context gets.
    next_context: u64,
}

/// The index in the pool of the frame at address `f`.
pub open spec fn frame_index(f: int) -> int {
    (f - FRAME_BASE) / (PAGE_SIZE as int)
}

/// The address of the frame of index `k`.
pub open spec fn frame_addr(k: int) -> int {
    FRAME_BASE + k * (PAGE_SIZE as int)
}

/// The number of the first `n` frames of `frames` allocated from `zone`.
pub open spec fn count_zone(frames: Seq<Option<Zone>>, n: int, zone: Zone) -> nat
    decreases n,
{
    if n <= 0 {
        0
    } else {
        count_zone(frames, n - 1, zone) + if frames[n - 1] == Some(zone) { 1nat } else { 0nat }
    }
}

/// The number of frames of the pool that are free.
pub open spec fn free_count(frames: Seq<Option<Zone>>, n: int) -> nat
    decreases n,
{
    if n <= 0 {
        0
    } else {
        free_count(frames, n - 1) + if frames[n - 1] is None { 1nat } else { 0nat }
    }
}

/// Allocating a free frame leaves one free frame less.
pub proof fn lemma_free_count_alloc(frames: Seq<Option<Zone>>, k: int, z: Zone, n: int)
    requires
        0 <= k < frames.len(),
        0 <= n <= frames.len(),
        frames[k] is None,
    ensures
        k < n ==> free_count(frames.update(k, Some(z)), n) + 1 == free_count(frames, n),
        k >= n ==> free_count(frames.update(k, Some(z)), n) == free_count(frames, n),
    decreases n,
{
    if n > 0 {
        lemma_free_count_alloc(frames, k, z, n - 1);
    }
}

/// Where frames are free, one of them is.
pub proof fn lemma_free_count_positive(frames: Seq<Option<Zone>>, n: int)
    requires
        0 <= n <= frames.len(),
        free_count(frames, n) > 0,
    ensures
        exists|k: int| 0 <= k < n && #[trigger] frames[k] is None,
    decreases n,
{
    if frames[n - 1] is None {
    } else {
        lemma_free_count_positive(frames, n - 1);
        let k = choose|k: int| 0 <= k < n - 1 && #[trigger] frames[k] is None;
        assert(frames[k] is None);
    }
}

/// A page filled with zeros.
pub open spec fn zero_page() -> Seq<u8> {
    Seq::new(PAGE_SIZE as nat, |i: int| 0u8)
}

impl PhysMem {
    /// The allocation state of each frame, by index.
    pub closed spec fn frames(&self) -> Seq<Option<Zone>> {
        self.frames@
    }

    /// The contents of each frame, by index.
    pub closed spec fn pages(&self) -> Seq<Seq<u8>> {
        Seq::new(
            self.frames@.len(),
            |k: int| self.data@.subrange(k * PAGE_SIZE as int, k * PAGE_SIZE as int + PAGE_SIZE as int),
        )
    }

    /// The share counts.
    pub closed spec fn refs(&self) -> Map<usize, usize> {
        self.refs@
    }

    /// The default page, once allocated.
    pub closed spec fn default_page_spec(&self) -> Option<usize> {
        self.default_page
    }

    /// The share count of frame `f`.
    pub open spec fn refcount(&self, f: usize) -> nat {
        count_of(self.refs(), f)
    }

    /// Whether `f` is the address of a frame of the pool.
    pub open spec fn is_frame(&self, f: int) -> bool {
        &&& FRAME_BASE <= f
        &&& is_page_aligned(f)
        &&& frame_index(f) < self.frames().len()
    }

    /// Whether `f` is a frame of the pool allocated from `zone`.
    pub open spec fn allocated_in(&self, f: int, zone: Zone) -> bool {
        self.is_frame(f) && self.frames()[frame_index(f)] == Some(zone)
    }

    /// Whether `f` is a frame of the pool that is allocated.
    pub open spec fn is_allocated(&self, f: int) -> bool {
        self.is_frame(f) && self.frames()[frame_index(f)] is Some
    }

    /// The contents of frame `f`.
    pub open spec fn page(&self, f: int) -> Seq<u8> {
        self.pages()[frame_index(f)]
    }

    /// The number of free frames.
    pub open spec fn free_frames(&self) -> nat {
        free_count(self.frames(), self.frames().len() as int)
    }

    pub open spec fn wf(&self) -> bool {
        &&& self.frames().len() <= MAX_FRAMES
        &&& self.pages().len() == self.frames().len()
        &&& forall|k: int| 0 <= k < self.pages().len() ==> (#[trigger] self.pages()[k]).len() == PAGE_SIZE
        &&& self.inner_wf()
        &&& self.default_page_spec() matches Some(d) ==> self.allocated_in(d as int, Zone::Kernel)
            && self.page(d as int) == zero_page()
        &&& forall|f: usize| #[trigger]
            self.refs().contains_key(f) ==> self.allocated_in(f as int, Zone::User) && self.refs()[f]
                >= 1
    }

    pub closed spec fn inner_wf(&self) -> bool {
        &&& self.refs.wf()
        &&& self.data@.len() == self.frames@.len() * PAGE_SIZE as int
    }

    /// Same frames, contents, counts and default page.
    pub open spec fn same_memory(&self, o: &PhysMem) -> bool {
        &&& self.frames() == o.frames()
        &&& self.pages() == o.pages()
        &&& self.refs() == o.refs()
        &&& self.default_page_spec() == o.default_page_spec()
    }

    proof fn lemma_wf(&self)
        requires
            self.inner_wf(),
            self.frames().len() <= MAX_FRAMES,
        ensures
            self.pages().len() == self.frames().len(),
            forall|k: int| 0 <= k < self.pages().len() ==> (#[trigger] self.pages()[k]).len() == PAGE_SIZE,
    {
        assert forall|k: int| 0 <= k < self.pages().len() implies (#[trigger] self.pages()[k]).len() == PAGE_SIZE by {
            assert(k * PAGE_SIZE as int + PAGE_SIZE as int <= self.data@.len()) by (nonlinear_arith)
                requires k < self.frames@.len(), self.data@.len() == self.frames@.len() * PAGE_SIZE as int, 0 <= k;
        }
    }

    /// Creates a pool of `count` frames, none of them allocated, all zero-filled.
    pub fn new(count: usize) -> (r: Self)
        requires
            count <= MAX_FRAMES,
        ensures
            r.wf(),
            r.frames() == Seq::new(count as nat, |i: int| None::<Zone>),
            r.refs() == Map::<usize, usize>::empty(),
            r.default_page_spec() is None,
    {
        let mut frames: Vec<Option<Zone>> = Vec::new();
        let mut i: usize = 0;
        while i < count
            invariant
                i <= count,
                frames@ == Seq::new(i as nat, |j: int| None::<Zone>),
            decreases count - i,
        {
            frames.push(None);
            i = i + 1;
            assert(frames@ =~= Seq::new(i as nat, |j: int| None::<Zone>));
        }
        let n: usize = count * PAGE_SIZE;
        let mut data: Vec<u8> = Vec::new();
        let mut j: usize = 0;
        while j < n
            invariant
                j <= n,
                data@.len() == j,
            decreases n - j,
        {
            data.push(0);
            j = j + 1;
        }
        let r = PhysMem { frames, data, refs: PhysRefCounter::new(), default_page: None, active: None, next_context: 0 };
        proof {
            r.lemma_wf();
        }
        r
    }

    /// Returns the number of frames in the pool.
    pub fn frame_count(&self) -> (r: usize)
        ensures
            r == self.frames().len(),
    {
        self.frames.len()
    }

    /// Returns the address of the frame of index `k`.
    pub fn frame_at(&self, k: usize) -> (r: usize)
        requires
            self.wf(),
            k < self.frames().len(),
        ensures
            r as int == frame_addr(k as int),
            self.is_frame(r as int),
            frame_index(r as int) == k,
    {
        FRAME_BASE + k * PAGE_SIZE
    }

    /// Returns the index of frame `f`.
    fn index_of(&self, f: usize) -> (r: usize)
        requires
            self.wf(),
            self.is_frame(f as int),
        ensures
            r as int == frame_index(f as int),
            r < self.frames().len(),
    {
        (f - FRAME_BASE) / PAGE_SIZE
    }

    /// Returns the number of frames allocated from `zone`.
    pub fn allocated_count(&self, zone: Zone) -> (r: usize)
        ensures
            r == count_zone(self.frames(), self.frames().len() as int, zone),
    {
        let mut n: usize = 0;
        let mut k: usize = 0;
        while k < self.frames.len()
            invariant
                n <= k <= self.frames().len(),
                n == count_zone(self.frames(), k as int, zone),
            decreases self.frames().len() - k,
        {
            if self.frames[k] == Some(zone) {
                n = n + 1;
            }
            k = k + 1;
        }
        n
    }

    /// Tells whether `f` is an allocated frame of the pool.
    pub fn is_allocated_frame(&self, f: usize) -> (r: bool)
        requires
            self.wf(),
        ensures
            r == self.is_allocated(f as int),
    {
        if f < FRAME_BASE || f % PAGE_SIZE != 0 {
            return false;
        }
        let k = (f - FRAME_BASE) / PAGE_SIZE;
        k < self.frames.len() && self.frames[k].is_some()
    }

    /// Allocates a free frame from `zone`, the lowest free one; its contents are whatever the
    /// frame last held. Fails with `OutOfMemory` exactly when no frame is free.
    pub fn alloc_frame(&mut self, zone: Zone) -> (r: Result<usize, Errno>)
        requires
            old(self).wf(),
        ensures
            final(self).wf(),
            r is Err <==> forall|k: int|
                0 <= k < old(self).frames().len() ==> #[trigger] old(self).frames()[k] is Some,
            r is Err ==> r == Err::<usize, Errno>(Errno::OutOfMemory) && final(self).same_memory(old(self)),
            r matches Ok(f) ==> {
                &&& old(self).is_frame(f as int)
                &&& old(self).frames()[frame_index(f as int)] is None
                &&& final(self).frames() == old(self).frames().update(frame_index(f as int), Some(zone))
                &&& final(self).pages() == old(self).pages()
                &&& final(self).refs() == old(self).refs()
                &&& final(self).default_page_spec() == old(self).default_page_spec()
            },
    {
        let mut k: usize = 0;
        while k < self.frames.len()
            invariant
                self.wf(),
                *self == *old(self),
                k <= self.frames().len(),
                forall|j: int| 0 <= j < k ==> #[trigger] self.frames()[j] is Some,
            decreases self.frames().len() - k,
        {
            if self.frames[k].is_none() {
                let f = self.frame_at(k);
                let ghost prev = *self;
                self.frames.set(k, Some(zone));
                assert(self.pages() =~= prev.pages());
                assert forall|g: usize| #[trigger] self.refs().contains_key(g) implies self.allocated_in(
                    g as int,
                    Zone::User,
                ) by {
                    assert(prev.refs().contains_key(g));
                    assert(prev.allocated_in(g as int, Zone::User));
                    assert(frame_index(g as int) != k);
                }
                return Ok(f);
            }
            k = k + 1;
        }
        Err(Errno::OutOfMemory)
    }

    /// Returns the allocated frame `f`, which no virtual page shares, to the pool.
    pub fn free_frame(&mut self, f: usize)
        requires
            old(self).wf(),
            old(self).is_allocated(f as int),
            old(self).refcount(f) == 0,
            old(self).default_page_spec() != Some(f),
        ensures
            final(self).wf(),
            final(self).frames() == old(self).frames().update(frame_index(f as int), None),
            final(self).pages() == old(self).pages(),
            final(self).refs() == old(self).refs(),
            final(self).default_page_spec() == old(self).default_page_spec(),
    {
        let k = self.index_of(f);
        let ghost prev = *self;
        self.frames.set(k, None);
        assert(self.pages() =~= prev.pages());
        assert forall|g: usize| #[trigger] self.refs().contains_key(g) implies self.allocated_in(
            g as int,
            Zone::User,
        ) by {
            assert(prev.allocated_in(g as int, Zone::User));
            assert(g != f);
        }
    }

    proof fn lemma_page_index(k: int, i: int, n: int)
        requires
            0 <= k < n,
            0 <= i < PAGE_SIZE,
        ensures
            0 <= k * PAGE_SIZE as int + i < n * PAGE_SIZE as int,
    {
        assert(k * PAGE_SIZE as int + i < n * PAGE_SIZE as int) by (nonlinear_arith)
            requires 0 <= k < n, 0 <= i < PAGE_SIZE as int;
    }

    /// Returns byte `off` of frame `f`.
    pub fn read_byte(&self, f: usize, off: usize) -> (r: u8)
        requires
            self.wf(),
            self.is_frame(f as int),
            off < PAGE_SIZE,
        ensures
            r == self.page(f as int)[off as int],
    {
        let k = self.index_of(f);
        proof {
            Self::lemma_page_index(k as int, off as int, self.frames().len() as int);
        }
        self.data[k * PAGE_SIZE + off]
    }

    /// Sets byte `off` of frame `f` to `b`.
    pub fn write_byte(&mut self, f: usize, off: usize, b: u8)
        requires
            old(self).wf(),
            old(self).is_frame(f as int),
            old(self).default_page_spec() != Some(f),
            off < PAGE_SIZE,
        ensures
            final(self).wf(),
            final(self).frames() == old(self).frames(),
            final(self).refs() == old(self).refs(),
            final(self).default_page_spec() == old(self).default_page_spec(),
            final(self).pages() == old(self).pages().update(
                frame_index(f as int),
                old(self).page(f as int).update(off as int, b),
            ),
    {
        let k = self.index_of(f);
        proof {
            Self::lemma_page_index(k as int, off as int, self.frames().len() as int);
        }
        let ghost prev = *self;
        self.data.set(k * PAGE_SIZE + off, b);
        proof {
            let expected = prev.pages().update(k as int, prev.page(f as int).update(off as int, b));
            assert forall|j: int| 0 <= j < self.pages().len() implies #[trigger] self.pages()[j] =~= expected[j] by {
                if j != k {
                    assert forall|i: int| 0 <= i < PAGE_SIZE implies #[trigger] self.pages()[j][i] == prev.pages()[j][i] by {
                        Self::lemma_page_index(j, i, self.frames().len() as int);
                    }
                }
            }
            assert(self.pages() =~= expected);
            self.lemma_wf();
            assert(self.frames() == prev.frames());
            assert(self.refs() == prev.refs());
            assert forall|g: usize| #[trigger] self.refs().contains_key(g) implies self.allocated_in(
                g as int,
                Zone::User,
            ) by {
                assert(prev.refs().contains_key(g));
            }
        }
    }

    /// Fills frame `f` with zeros.
    pub fn zero_frame(&mut self, f: usize)
        requires
            old(self).wf(),
            old(self).is_frame(f as int),
        ensures
            final(self).wf(),
            final(self).frames() == old(self).frames(),
            final(self).refs() == old(self).refs(),
            final(self).default_page_spec() == old(self).default_page_spec(),
            final(self).pages() == old(self).pages().update(frame_index(f as int), zero_page()),
    {
        let k = self.index_of(f);
        let base = k * PAGE_SIZE;
        let ghost prev = *self;
        let mut i: usize = 0;
        while i < PAGE_SIZE
            invariant
                prev.wf(),
                prev.inner_wf(),
                k < prev.frames().len(),
                base == k * PAGE_SIZE,
                i <= PAGE_SIZE,
                self.frames@ == prev.frames@,
                self.refs@ == prev.refs@,
                self.default_page == prev.default_page,
                self.data@.len() == prev.data@.len(),
                forall|x: int| base <= x < base + i ==> self.data@[x] == 0,
                forall|x: int|
                    0 <= x < self.data@.len() && !(base <= x < base + PAGE_SIZE) ==> self.data@[x]
                        == prev.data@[x],
            decreases PAGE_SIZE - i,
        {
            proof {
                Self::lemma_page_index(k as int, i as int, prev.frames().len() as int);
            }
            self.data.set(base + i, 0);
            i = i + 1;
        }
        proof {
            let expected = prev.pages().update(k as int, zero_page());
            assert forall|j: int| 0 <= j < self.pages().len() implies #[trigger] self.pages()[j] =~= expected[j] by {
                assert forall|i: int| 0 <= i < PAGE_SIZE implies #[trigger] self.pages()[j][i] == expected[j][i] by {
                    Self::lemma_page_index(j, i, self.frames().len() as int);
                }
            }
            assert(self.pages() =~= expected);
            self.lemma_wf();
            assert(self.frames() == prev.frames());
            assert(self.refs() == prev.refs());
            assert forall|g: usize| #[trigger] self.refs().contains_key(g) implies self.allocated_in(
                g as int,
                Zone::User,
            ) by {
                assert(prev.refs().contains_key(g));
            }
        }
    }

    /// Copies the contents of frame `src` into frame `dst`.
    pub fn copy_frame(&mut self, src: usize, dst: usize)
        requires
            old(self).wf(),
            old(self).is_frame(src as int),
            old(self).is_frame(dst as int),
            old(self).default_page_spec() != Some(dst),
            src != dst,
        ensures
            final(self).wf(),
            final(self).frames() == old(self).frames(),
            final(self).refs() == old(self).refs(),
            final(self).default_page_spec() == old(self).default_page_spec(),
            final(self).pages() == old(self).pages().update(
                frame_index(dst as int),
                old(self).page(src as int),
            ),
    {
        let ks = self.index_of(src);
        let kd = self.index_of(dst);
        let sbase = ks * PAGE_SIZE;
        let dbase = kd * PAGE_SIZE;
        let ghost prev = *self;
        let mut i: usize = 0;
        while i < PAGE_SIZE
            invariant
                prev.wf(),
                prev.inner_wf(),
                ks < prev.frames().len(),
                kd < prev.frames().len(),
                ks != kd,
                sbase == ks * PAGE_SIZE,
                dbase == kd * PAGE_SIZE,
                i <= PAGE_SIZE,
                self.frames@ == prev.frames@,
                self.refs@ == prev.refs@,
                self.default_page == prev.default_page,
                self.data@.len() == prev.data@.len(),
                forall|x: int| 0 <= x < i ==> #[trigger] self.data@[dbase + x] == prev.data@[sbase + x],
                forall|x: int|
                    0 <= x < self.data@.len() && !(dbase <= x < dbase + PAGE_SIZE) ==> self.data@[x]
                        == prev.data@[x],
            decreases PAGE_SIZE - i,
        {
            proof {
                Self::lemma_page_index(ks as int, i as int, prev.frames().len() as int);
                Self::lemma_page_index(kd as int, i as int, prev.frames().len() as int);
            }
            let b = self.data[sbase + i];
            self.data.set(dbase + i, b);
            i = i + 1;
        }
        proof {
            let expected = prev.pages().update(kd as int, prev.page(src as int));
            assert forall|j: int| 0 <= j < self.pages().len() implies #[trigger] self.pages()[j] =~= expected[j] by {
                assert forall|i: int| 0 <= i < PAGE_SIZE implies #[trigger] self.pages()[j][i] == expected[j][i] by {
                    Self::lemma_page_index(j, i, self.frames().len() as int);
                    Self::lemma_page_index(ks as int, i, self.frames().len() as int);
                    if j == kd {
                        assert(self.data@[dbase + i] == prev.data@[sbase + i]);
                    }
                }
            }
            assert(self.pages() =~= expected);
            self.lemma_wf();
            assert(self.frames() == prev.frames());
            assert(self.refs() == prev.refs());
            assert forall|g: usize| #[trigger] self.refs().contains_key(g) implies self.allocated_in(
                g as int,
                Zone::User,
            ) by {
                assert(prev.refs().contains_key(g));
            }
        }
    }

    /// Returns the default page, allocating it from the kernel zone and filling it with zeros
    /// on first use. Fails with `OutOfMemory`, changing nothing, where no frame is free.
    pub fn get_default_page(&mut self) -> (r: Result<usize, Errno>)
        requires
            old(self).wf(),
        ensures
            final(self).wf(),
            final(self).refs() == old(self).refs(),
            old(self).default_page_spec() matches Some(d) ==> r == Ok::<usize, Errno>(d)
                && final(self).same_memory(old(self)),
            r is Err ==> r == Err::<usize, Errno>(Errno::OutOfMemory) && final(self).same_memory(old(self)),
            r is Err <==> old(self).default_page_spec() is None && forall|k: int|
                0 <= k < old(self).frames().len() ==> #[trigger] old(self).frames()[k] is Some,
            r matches Ok(d) ==> {
                &&& final(self).default_page_spec() == Some(d)
                &&& final(self).allocated_in(d as int, Zone::Kernel)
                &&& final(self).page(d as int) == zero_page()
            },
            old(self).default_page_spec() is None ==> (r matches Ok(d) ==> {
                &&& old(self).is_frame(d as int)
                &&& old(self).frames()[frame_index(d as int)] is None
                &&& final(self).frames() == old(self).frames().update(frame_index(d as int), Some(Zone::Kernel))
                &&& final(self).pages() == old(self).pages().update(frame_index(d as int), zero_page())
            }),
    {
        if let Some(d) = self.default_page {
            return Ok(d);
        }
        let d = self.alloc_frame(Zone::Kernel)?;
        self.zero_frame(d);
        self.default_page = Some(d);
        Ok(d)
    }

    /// Returns the share count of frame `f`.
    pub fn refcount_of(&self, f: usize) -> (r: usize)
        ensures
            r as nat == self.refcount(f),
    {
        self.refs.get(f)
    }

    /// Tells whether frame `f` is shared: its count is above one.
    pub fn is_shared(&self, f: usize) -> (r: bool)
        ensures
            r == (self.refcount(f) > 1),
    {
        self.refs.is_shared(f)
    }

    /// Adds one to the share count of the user frame `f`. Fails with `OutOfMemory`, changing
    /// nothing, where the count cannot grow any further.
    pub fn ref_increment(&mut self, f: usize) -> (r: Result<(), Errno>)
        requires
            old(self).wf(),
            old(self).allocated_in(f as int, Zone::User),
        ensures
            final(self).wf(),
            final(self).frames() == old(self).frames(),
            final(self).pages() == old(self).pages(),
            final(self).default_page_spec() == old(self).default_page_spec(),
            r is Ok <==> old(self).refcount(f) < usize::MAX,
            r is Ok ==> final(self).refs() == old(self).refs().insert(f, (old(self).refcount(f) + 1) as usize),
            r is Err ==> final(self).refs() == old(self).refs() && r == Err::<(), Errno>(Errno::OutOfMemory),
    {
        let r = self.refs.increment(f);
        proof {
            assert forall|g: usize| #[trigger] self.refs().contains_key(g) implies self.allocated_in(
                g as int,
                Zone::User,
            ) by {
                if g != f {
                    assert(old(self).refs().contains_key(g));
                }
            }
        }
        r
    }

    /// Removes one from the share count of frame `f`, which must be counted. Returns whether
    /// the count reached zero.
    pub fn ref_decrement(&mut self, f: usize) -> (r: bool)
        requires
            old(self).wf(),
            old(self).refcount(f) >= 1,
        ensures
            final(self).wf(),
            final(self).frames() == old(self).frames(),
            final(self).pages() == old(self).pages(),
            final(self).default_page_spec() == old(self).default_page_spec(),
            r == (old(self).refcount(f) == 1),
            final(self).refcount(f) == old(self).refcount(f) - 1,
            r ==> final(self).refs() == old(self).refs().remove(f),
            !r ==> final(self).refs() == old(self).refs().insert(f, (old(self).refcount(f) - 1) as usize),
    {
        let r = self.refs.decrement(f);
        proof {
            assert forall|g: usize| #[trigger] self.refs().contains_key(g) implies self.allocated_in(
                g as int,
                Zone::User,
            ) by {
                assert(old(self).refs().contains_key(g));
            }
        }
        r
    }

    /// Tells whether `f` is the address of a frame of the pool.
    pub fn is_frame_addr(&self, f: usize) -> (r: bool)
        requires
            self.wf(),
        ensures
            r == self.is_frame(f as int),
    {
        f >= FRAME_BASE && f % PAGE_SIZE == 0 && (f - FRAME_BASE) / PAGE_SIZE < self.frames.len()
    }

    /// Returns the default page, if it has been allocated.
    pub fn default_page_addr(&self) -> (r: Option<usize>)
        ensures
            r == self.default_page_spec(),
    {
        self.default_page
    }

    /// The translation context the processor uses, once one is bound.
    pub closed spec fn active_context(&self) -> Option<u64> {
        self.active
    }

    /// Returns the translation context the processor uses, if one is bound.
    pub fn get_active_context(&self) -> (r: Option<u64>)
        ensures
            r == self.active_context(),
    {
        self.active
    }

    /// Returns an identifier for a new translation context. Identifiers are handed out in
    /// order and wrap around after `u64::MAX`.
    pub fn new_context_id(&mut self) -> (r: u64)
        requires
            old(self).wf(),
        ensures
            final(self).wf(),
            final(self).same_memory(old(self)),
            final(self).active_context() == old(self).active_context(),
    {
        let id = self.next_context;
        self.next_context = self.next_context.wrapping_add(1);
        proof {
            assert(self.frames() == old(self).frames());
            assert(self.pages() == old(self).pages());
            assert(self.refs() == old(self).refs());
            assert forall|g: usize| #[trigger] self.refs().contains_key(g) implies self.allocated_in(
                g as int,
                Zone::User,
            ) && self.refs()[g] >= 1 by {
                assert(old(self).refs().contains_key(g));
            }
        }
        id
    }

    /// Makes the translation context `id` the one the processor uses.
    pub fn set_active_context(&mut self, id: u64)
        requires
            old(self).wf(),
        ensures
            final(self).wf(),
            final(self).same_memory(old(self)),
            final(self).active_context() == Some(id),
    {
        self.active = Some(id);
        proof {
            assert(self.frames() == old(self).frames());
            assert(self.pages() == old(self).pages());
            assert(self.refs() == old(self).refs());
            assert forall|g: usize| #[trigger] self.refs().contains_key(g) implies self.allocated_in(
                g as int,
                Zone::User,
            ) && self.refs()[g] >= 1 by {
                assert(old(self).refs().contains_key(g));
            }
        }
    }
}

} // verus!
