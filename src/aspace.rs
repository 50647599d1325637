use vstd::prelude::*;

use crate::error::MmError;
use crate::flags::{MappingFlags, PageSize, PAGE_SIZE_4K};

verus! {

/// Where the pages of a copy-on-write area come from before the first write.
#[derive(Clone, Copy, Debug, PartialEq, Eq, Structural)]
pub enum Store {
    /// The page cache of a regular file.
    Cached { cache: u64 },
    /// A device that offers its contents read-only.
    Device { device: u64 },
}

/// The source that supplies and reclaims the pages of an area.
///
/// A backend never changes during an area's lifetime. The anchor is the
/// virtual address at which the backend was created: the file offset (or pool
/// offset) of an address is its distance from the anchor plus `offset`, so
/// splitting an area keeps the backend as it is.
#[derive(Clone, Copy, Debug, PartialEq, Eq, Structural)]
pub enum Backend {
    /// Freshly zeroed frames, owned by the area alone.
    Alloc { page_size: PageSize },
    /// Pages shared read-only with `store` until the first write copies them.
    CopyOnWrite { page_size: PageSize, store: Store, offset: u64, anchor: usize },
    /// Pages of a file's writable page cache, shared with every mapper.
    SharedFile { cache: u64, open_flags: u32, offset: u64, anchor: usize },
    /// Anonymous pages of a pool shared by reference.
    SharedPages { pool_size: usize, anchor: usize },
    /// Physical address = virtual address - `bias`; not paged.
    Linear { bias: i128 },
}

impl Backend {
    pub open spec fn spec_page_size(&self) -> PageSize {
        match *self {
            Backend::Alloc { page_size } => page_size,
            Backend::CopyOnWrite { page_size, .. } => page_size,
            _ => PageSize::Size4K,
        }
    }

    /// The page size that the backend maps with.
    #[verifier::when_used_as_spec(spec_page_size)]
    pub fn page_size(&self) -> (r: PageSize)
        ensures
            r == self.spec_page_size(),
    {
        match self {
            Backend::Alloc { page_size } => *page_size,
            Backend::CopyOnWrite { page_size, .. } => *page_size,
            _ => PageSize::Size4K,
        }
    }
}

/// Everything about an area but its place.
#[derive(Clone, Copy, Debug, PartialEq, Eq, Structural)]
pub struct AreaAttrs {
    pub flags: MappingFlags,
    pub backend: Backend,
    /// Whether a child process is kept from inheriting the area.
    pub dontfork: bool,
}

/// A contiguous range `[start, start + size)` with one set of attributes.
#[derive(Clone, Copy, Debug, PartialEq, Eq, Structural)]
pub struct Area {
    pub start: usize,
    pub size: usize,
    pub attrs: AreaAttrs,
}

impl Area {
    pub open spec fn end(self) -> int {
        self.start + self.size
    }

    pub open spec fn contains(self, x: int) -> bool {
        self.start <= x < self.end()
    }

    pub open spec fn page_bytes(self) -> int {
        self.attrs.backend.spec_page_size().spec_bytes() as int
    }

    /// Non-empty, and both ends on the area's own page boundaries.
    pub open spec fn well_placed(self) -> bool {
        &&& self.size > 0
        &&& self.start as int % self.page_bytes() == 0
        &&& self.end() % self.page_bytes() == 0
    }

    /// Access rights of the area.
    pub fn flags(&self) -> (r: MappingFlags)
        ensures
            r == self.attrs.flags,
    {
        self.attrs.flags
    }

    /// The area's backend.
    pub fn backend(&self) -> (r: Backend)
        ensures
            r == self.attrs.backend,
    {
        self.attrs.backend
    }
}

/// Areas ordered by address, pairwise disjoint, each well placed inside
/// `[base, end)`.
pub open spec fn areas_wf(s: Seq<Area>, base: int, end: int) -> bool {
    &&& forall|i: int|
        #![trigger s[i]]
        0 <= i < s.len() ==> s[i].well_placed() && base <= s[i].start && s[i].end() <= end
    &&& forall|i: int, j: int| 0 <= i < j < s.len() ==> #[trigger] s[i].end() <= #[trigger] s[j].start
}

/// The attributes of the area of `s` that holds `x`, if any.
pub open spec fn attrs_in(s: Seq<Area>, x: int) -> Option<AreaAttrs> {
    if exists|i: int| 0 <= i < s.len() && #[trigger] s[i].contains(x) {
        Some(s[choose|i: int| 0 <= i < s.len() && #[trigger] s[i].contains(x)].attrs)
    } else {
        None
    }
}

/// The value last written at `x` in the log `s`, if any.
pub open spec fn log_lookup(s: Seq<(usize, u8)>, x: int) -> Option<u8>
    decreases s.len(),
{
    if s.len() == 0 {
        None
    } else if s.last().0 == x {
        Some(s.last().1)
    } else {
        log_lookup(s.drop_last(), x)
    }
}

/// Whether the access rights `f` include every right in `access`.
pub open spec fn allows(f: MappingFlags, access: MappingFlags) -> bool {
    &&& access.read ==> f.read
    &&& access.write ==> f.write
    &&& access.execute ==> f.execute
    &&& access.user ==> f.user
}

proof fn lemma_attrs_unique(s: Seq<Area>, i: int, x: int)
    requires
        forall|a: int, b: int| 0 <= a < b < s.len() ==> #[trigger] s[a].end() <= #[trigger] s[b].start,
        0 <= i < s.len(),
        s[i].contains(x),
    ensures
        attrs_in(s, x) == Some(s[i].attrs),
{
    let j = choose|j: int| 0 <= j < s.len() && #[trigger] s[j].contains(x);
    assert(s[j].contains(x));
    if j < i {
        assert(s[j].end() <= s[i].start);
    } else if i < j {
        assert(s[i].end() <= s[j].start);
    }
}

proof fn lemma_attrs_push(s: Seq<Area>, a: Area, x: int)
    requires
        forall|p: int, q: int| 0 <= p < q < s.len() ==> #[trigger] s[p].end() <= #[trigger] s[q].start,
        forall|k: int| 0 <= k < s.len() ==> #[trigger] s[k].end() <= a.start,
    ensures
        attrs_in(s.push(a), x) == (if a.contains(x) {
            Some(a.attrs)
        } else {
            attrs_in(s, x)
        }),
{
    let t = s.push(a);
    assert forall|p: int, q: int| 0 <= p < q < t.len() implies #[trigger] t[p].end()
        <= #[trigger] t[q].start by {
        if q == s.len() {
            assert(s[p].end() <= a.start);
        } else {
            assert(s[p].end() <= s[q].start);
        }
    }
    if a.contains(x) {
        lemma_attrs_unique(t, s.len() as int, x);
    } else if exists|i: int| 0 <= i < s.len() && #[trigger] s[i].contains(x) {
        let i = choose|i: int| 0 <= i < s.len() && #[trigger] s[i].contains(x);
        lemma_attrs_unique(s, i, x);
        assert(t[i] == s[i]);
        lemma_attrs_unique(t, i, x);
    } else {
        assert forall|i: int| 0 <= i < t.len() implies !(#[trigger] t[i].contains(x)) by {
            if i < s.len() {
                assert(t[i] == s[i]);
            }
        }
    }
}


proof fn lemma_push_area(s: Seq<Area>, a: Area, base: int, end: int)
    requires
        areas_wf(s, base, end),
        forall|k: int| 0 <= k < s.len() ==> #[trigger] s[k].end() <= a.start,
        a.well_placed(),
        base <= a.start,
        a.end() <= end,
    ensures
        areas_wf(s.push(a), base, end),
        forall|x: int|
            #[trigger] attrs_in(s.push(a), x) == (if a.contains(x) {
                Some(a.attrs)
            } else {
                attrs_in(s, x)
            }),
{
    let t = s.push(a);
    assert forall|p: int, q: int| 0 <= p < q < t.len() implies #[trigger] t[p].end()
        <= #[trigger] t[q].start by {
        if q == s.len() {
            assert(s[p].end() <= a.start);
        } else {
            assert(s[p].end() <= s[q].start);
        }
    }
    assert forall|i: int| #![trigger t[i]] 0 <= i < t.len() implies t[i].well_placed() && base
        <= t[i].start && t[i].end() <= end by {
        if i < s.len() {
            assert(t[i] == s[i]);
        }
    }
    assert forall|x: int| #[trigger] attrs_in(s.push(a), x) == (if a.contains(x) {
        Some(a.attrs)
    } else {
        attrs_in(s, x)
    }) by {
        lemma_attrs_push(s, a, x);
    }
}

proof fn lemma_prefix_attrs(s: Seq<Area>, i: int, base: int, end: int)
    requires
        areas_wf(s, base, end),
        0 <= i < s.len(),
    ensures
        s.subrange(0, i + 1) =~= s.subrange(0, i).push(s[i]),
        forall|x: int|
            #[trigger] attrs_in(s.subrange(0, i + 1), x) == (if s[i].contains(x) {
                Some(s[i].attrs)
            } else {
                attrs_in(s.subrange(0, i), x)
            }),
{
    let p = s.subrange(0, i);
    assert(s.subrange(0, i + 1) =~= p.push(s[i]));
    assert forall|a: int, b: int| 0 <= a < b < p.len() implies #[trigger] p[a].end()
        <= #[trigger] p[b].start by {
        assert(s[a].end() <= s[b].start);
    }
    assert forall|k: int| 0 <= k < p.len() implies #[trigger] p[k].end() <= s[i].start by {
        assert(s[k].end() <= s[i].start);
    }
    assert forall|x: int| #[trigger] attrs_in(s.subrange(0, i + 1), x) == (if s[i].contains(x) {
        Some(s[i].attrs)
    } else {
        attrs_in(s.subrange(0, i), x)
    }) by {
        lemma_attrs_push(p, s[i], x);
    }
}

proof fn lemma_log_push(s: Seq<(usize, u8)>, e: (usize, u8))
    ensures
        forall|x: int|
            #[trigger] log_lookup(s.push(e), x) == (if e.0 == x {
                Some(e.1)
            } else {
                log_lookup(s, x)
            }),
{
    assert(s.push(e).drop_last() =~= s);
}

proof fn lemma_align_up_least(c: int, x: int, p: int)
    requires
        p > 0,
        x >= 0,
        c % p == 0,
        c >= x,
    ensures
        c >= crate::flags::align_up_spec(x, p),
{
    vstd::arithmetic::div_mod::lemma_fundamental_div_mod(x, p);
    vstd::arithmetic::div_mod::lemma_fundamental_div_mod(c, p);
    if x % p != 0 {
        assert(c >= x - x % p + p) by (nonlinear_arith)
            requires
                p > 0,
                c == p * (c / p),
                x == p * (x / p) + x % p,
                0 < x % p < p,
                c >= x,
        ;
    }
}

/// No area of `s` has `c` strictly inside it off its own page boundary.
spec fn cuts_clean(s: Seq<Area>, c: int) -> bool {
    forall|i: int|
        #![trigger s[i]]
        0 <= i < s.len() && s[i].start < c < s[i].end() ==> c % s[i].page_bytes() == 0
}

/// A change applied to every address of a range.
#[derive(Clone, Copy)]
enum Edit {
    Unmap,
    Protect { flags: MappingFlags },
    Fork { dontfork: bool },
}

spec fn edited(op: Edit, a: Option<AreaAttrs>) -> Option<AreaAttrs> {
    match a {
        None => None,
        Some(t) => match op {
            Edit::Unmap => None,
            Edit::Protect { flags } => Some(AreaAttrs { flags, ..t }),
            Edit::Fork { dontfork } => Some(AreaAttrs { dontfork, ..t }),
        },
    }
}

/// Appends to `out` the parts of `a` before, inside and after `[s, e)`, the
/// inside part changed by `op` (and left out by an unmap).
fn push_pieces(
    out: &mut Vec<Area>,
    a: Area,
    s: usize,
    e: usize,
    op: Edit,
    Ghost(base): Ghost<int>,
    Ghost(end): Ghost<int>,
)
    requires
        areas_wf(old(out)@, base, end),
        forall|k: int| 0 <= k < old(out)@.len() ==> #[trigger] old(out)@[k].end() <= a.start,
        a.well_placed(),
        base <= a.start,
        a.end() <= end,
        end <= usize::MAX,
        s <= e,
        a.start < s < a.end() ==> s as int % a.page_bytes() == 0,
        a.start < e < a.end() ==> e as int % a.page_bytes() == 0,
    ensures
        areas_wf(final(out)@, base, end),
        forall|k: int| 0 <= k < final(out)@.len() ==> #[trigger] final(out)@[k].end() <= a.end(),
        forall|x: int|
            #[trigger] attrs_in(final(out)@, x) == (if a.contains(x) {
                if s <= x < e {
                    edited(op, Some(a.attrs))
                } else {
                    Some(a.attrs)
                }
            } else {
                attrs_in(old(out)@, x)
            }),
{
    let a_end: usize = a.start + a.size;
    let ghost out0 = out@;
    if a.start < s {
        let l_end = if a_end < s {
            a_end
        } else {
            s
        };
        let left = Area { start: a.start, size: l_end - a.start, attrs: a.attrs };
        proof {
            lemma_push_area(out@, left, base, end);
        }
        out.push(left);
    }
    let ghost out1 = out@;
    proof {
        assert forall|k: int| 0 <= k < out@.len() implies #[trigger] out@[k].end() <= (if a.start
            < s {
            if a_end < s {
                a_end as int
            } else {
                s as int
            }
        } else {
            a.start as int
        }) by {
            if k < out0.len() {
                assert(out0[k] == out@[k]);
            }
        }
    }
    let m_start = if a.start < s {
        s
    } else {
        a.start
    };
    let m_end = if a_end < e {
        a_end
    } else {
        e
    };
    if m_start < m_end {
        match op {
            Edit::Unmap => {},
            _ => {
                let attrs = match op {
                    Edit::Protect { flags } => AreaAttrs { flags, ..a.attrs },
                    Edit::Fork { dontfork } => AreaAttrs { dontfork, ..a.attrs },
                    Edit::Unmap => a.attrs,
                };
                let mid = Area { start: m_start, size: m_end - m_start, attrs };
                proof {
                    lemma_push_area(out@, mid, base, end);
                }
                out.push(mid);
            },
        }
    }
    let ghost out2 = out@;
    proof {
        assert forall|k: int| 0 <= k < out@.len() implies #[trigger] out@[k].end() <= (if a.start
            < e {
            if a_end < e {
                a_end as int
            } else {
                e as int
            }
        } else {
            a.start as int
        }) by {
            if k < out1.len() {
                assert(out1[k] == out@[k]);
            }
        }
    }
    let r_start = if a.start < e {
        e
    } else {
        a.start
    };
    if r_start < a_end {
        let right = Area { start: r_start, size: a_end - r_start, attrs: a.attrs };
        proof {
            lemma_push_area(out@, right, base, end);
        }
        out.push(right);
    }
    proof {
        assert forall|k: int| 0 <= k < out@.len() implies #[trigger] out@[k].end() <= a.end() by {
            if k < out2.len() {
                assert(out2[k] == out@[k]);
            }
        }
        assert forall|x: int| #[trigger] attrs_in(out@, x) == (if a.contains(x) {
            if s <= x < e {
                edited(op, Some(a.attrs))
            } else {
                Some(a.attrs)
            }
        } else {
            attrs_in(out0, x)
        }) by {}
    }
}

/// The address space of one process: the areas mapped inside the window
/// `[base, end)`, and the bytes written through them.
///
/// Bytes are kept as a log of writes; the newest entry for an address wins,
/// and an address of a mapped area with no entry reads as zero.
pub struct AddrSpace {
    base: usize,
    end: usize,
    areas: Vec<Area>,
    log: Vec<(usize, u8)>,
}

impl AddrSpace {
    pub closed spec fn spec_base(&self) -> usize {
        self.base
    }

    pub closed spec fn spec_end(&self) -> usize {
        self.end
    }

    /// The areas, in address order.
    pub closed spec fn area_seq(&self) -> Seq<Area> {
        self.areas@
    }

    /// The log of writes, oldest first.
    pub closed spec fn log_seq(&self) -> Seq<(usize, u8)> {
        self.log@
    }

    pub open spec fn wf(&self) -> bool {
        &&& self.spec_base() <= self.spec_end()
        &&& self.spec_end() <= isize::MAX
        &&& areas_wf(self.area_seq(), self.spec_base() as int, self.spec_end() as int)
    }

    /// The attributes of the area that holds `x`, if any.
    pub open spec fn attrs_at(&self, x: int) -> Option<AreaAttrs> {
        attrs_in(self.area_seq(), x)
    }

    pub open spec fn mapped(&self, x: int) -> bool {
        self.attrs_at(x).is_some()
    }

    /// Every address of `[s, e)` lies in some area.
    pub open spec fn covered(&self, s: int, e: int) -> bool {
        forall|x: int| s <= x < e ==> #[trigger] self.mapped(x)
    }

    /// No address of `[s, e)` lies in any area.
    pub open spec fn vacant(&self, s: int, e: int) -> bool {
        forall|x: int| s <= x < e ==> !#[trigger] self.mapped(x)
    }

    /// The value last written at `x`, if it was written since it was last
    /// mapped, unmapped or cleared.
    pub open spec fn written(&self, x: int) -> Option<u8> {
        log_lookup(self.log_seq(), x)
    }

    /// What a read of `x` sees when `x` is mapped. Only content written
    /// through this address space is modelled: a byte never written (or
    /// forgotten by an unmap or eviction) reads as zero, as fresh anonymous
    /// pages do; what a file, device or shared pool holds is not modelled,
    /// and no bytes are shared between two live areas.
    pub open spec fn byte_at(&self, x: int) -> u8 {
        match self.written(x) {
            Some(v) => v,
            None => 0,
        }
    }

    /// An empty address space over the window `[base, end)`.
    pub fn new(base: usize, end: usize) -> (r: Self)
        requires
            base <= end,
            end <= isize::MAX,
        ensures
            r.wf(),
            r.spec_base() == base,
            r.spec_end() == end,
            r.area_seq().len() == 0,
            forall|x: int| !#[trigger] r.mapped(x),
            forall|x: int| #[trigger] r.written(x) == None::<u8>,
    {
        let r = AddrSpace { base, end, areas: Vec::new(), log: Vec::new() };
        assert(r.areas@.len() == 0);
        assert(r.log@.len() == 0);
        r
    }

    /// The lowest address of the window.
    pub fn base(&self) -> (r: usize)
        ensures
            r == self.spec_base(),
    {
        self.base
    }

    /// The end of the window.
    pub fn end(&self) -> (r: usize)
        ensures
            r == self.spec_end(),
    {
        self.end
    }

    /// The area that holds `addr`, if any.
    pub fn find_area(&self, addr: usize) -> (r: Option<Area>)
        requires
            self.wf(),
        ensures
            r matches Some(a) ==> a.contains(addr as int) && self.attrs_at(addr as int) == Some(
                a.attrs,
            ),
            r is None ==> !self.mapped(addr as int),
    {
        let n = self.areas.len();
        let mut i: usize = 0;
        while i < n
            invariant
                n == self.areas@.len(),
                i <= n,
                self.wf(),
                forall|k: int| 0 <= k < i ==> !(#[trigger] self.areas@[k]).contains(addr as int),
            decreases n - i,
        {
            let a = self.areas[i];
            if a.start <= addr && addr - a.start < a.size {
                proof {
                    lemma_attrs_unique(self.areas@, i as int, addr as int);
                }
                return Some(a);
            }
            i += 1;
        }
        None
    }

    /// Whether every address of `[start, start + size)` lies in some area.
    pub fn contains_range(&self, start: usize, size: usize) -> (r: bool)
        requires
            self.wf(),
            start + size <= usize::MAX,
        ensures
            r == self.covered(start as int, start + size),
    {
        let e: usize = start + size;
        let mut cur: usize = start;
        let n = self.areas.len();
        let mut i: usize = 0;
        if cur >= e {
            return true;
        }
        while i < n
            invariant
                n == self.areas@.len(),
                i <= n,
                self.wf(),
                start <= cur < e,
                e == start + size,
                forall|x: int| start <= x < cur ==> #[trigger] self.mapped(x),
                forall|k: int| 0 <= k < i ==> (#[trigger] self.areas@[k]).end() <= cur,
            decreases n - i,
        {
            let a = self.areas[i];
            let a_end: usize = a.start + a.size;
            if a.start > cur {
                proof {
                    assert forall|k: int| 0 <= k < n implies !(#[trigger] self.areas@[k]).contains(
                        cur as int,
                    ) by {
                        if k > i {
                            assert(self.areas@[i as int].end() <= self.areas@[k].start);
                        }
                    }
                    assert(!self.mapped(cur as int));
                }
                return false;
            }
            if cur < a_end {
                proof {
                    assert forall|x: int| start <= x < a_end implies #[trigger] self.mapped(x) by {
                        if x >= cur {
                            assert(self.areas@[i as int].contains(x));
                        }
                    }
                }
                cur = a_end;
                if cur >= e {
                    return true;
                }
            }
            i += 1;
        }
        proof {
            assert forall|k: int| 0 <= k < n implies !(#[trigger] self.areas@[k]).contains(
                cur as int,
            ) by {}
            assert(!self.mapped(cur as int));
        }
        false
    }

    /// Whether every address of `[start, start + size)` is in the window, with
    /// both ends on standard page boundaries.
    pub open spec fn range_ok(&self, start: int, size: int) -> bool {
        &&& start % (PAGE_SIZE_4K as int) == 0
        &&& size % (PAGE_SIZE_4K as int) == 0
        &&& self.spec_base() <= start
        &&& start + size <= self.spec_end()
    }

    /// No area would be cut at `c` off its own page boundary: `c` lies in no
    /// area, or on a page boundary of the area that holds it.
    pub open spec fn cut_ok(&self, c: int) -> bool {
        self.attrs_at(c) matches Some(t) ==> c % (t.backend.spec_page_size().spec_bytes() as int)
            == 0
    }

    /// `cut_ok`, area by area.
    proof fn lemma_cut_ok(&self, c: int)
        requires
            self.wf(),
        ensures
            self.cut_ok(c) <==> cuts_clean(self.areas@, c),
    {
        if self.cut_ok(c) {
            assert forall|i: int|
                #![trigger self.areas@[i]]
                0 <= i < self.areas@.len() && self.areas@[i].start < c
                    < self.areas@[i].end() implies c % self.areas@[i].page_bytes() == 0 by {
                lemma_attrs_unique(self.areas@, i, c);
            }
        }
        if cuts_clean(self.areas@, c) && self.mapped(c) {
            let i = choose|i: int| 0 <= i < self.areas@.len() && #[trigger] self.areas@[i].contains(c);
            lemma_attrs_unique(self.areas@, i, c);
        }
    }

    /// The range can be unmapped, protected or re-flagged as a whole: it is
    /// in the window on standard page boundaries, and, unless it is empty, no
    /// area would be cut at either end off its own page boundary.
    pub open spec fn editable(&self, start: int, size: int) -> bool {
        &&& self.range_ok(start, size)
        &&& size > 0 ==> self.cut_ok(start) && self.cut_ok(start + size)
    }

    fn check_range(&self, start: usize, size: usize) -> (r: bool)
        requires
            self.wf(),
        ensures
            r == self.range_ok(start as int, size as int),
    {
        start % PAGE_SIZE_4K == 0 && size % PAGE_SIZE_4K == 0 && self.base <= start && start
            <= self.end && size <= self.end - start
    }

    fn check_cut(&self, c: usize) -> (r: bool)
        requires
            self.wf(),
        ensures
            r == self.cut_ok(c as int),
    {
        match self.find_area(c) {
            Some(a) => c % a.attrs.backend.page_size().bytes() == 0,
            None => true,
        }
    }

    fn check_editable(&self, start: usize, size: usize) -> (r: bool)
        requires
            self.wf(),
        ensures
            r == self.editable(start as int, size as int),
    {
        self.check_range(start, size) && (size == 0 || (self.check_cut(start) && self.check_cut(
            start + size,
        )))
    }

    /// Rebuilds the areas with the change `op` applied to `[s, e)`, splitting
    /// the areas that straddle `s` or `e`.
    fn edit(&mut self, s: usize, e: usize, op: Edit)
        requires
            old(self).wf(),
            s <= e,
            old(self).cut_ok(s as int),
            old(self).cut_ok(e as int),
        ensures
            final(self).wf(),
            final(self).spec_base() == old(self).spec_base(),
            final(self).spec_end() == old(self).spec_end(),
            final(self).log_seq() == old(self).log_seq(),
            forall|x: int|
                #[trigger] final(self).attrs_at(x) == (if s <= x < e {
                    edited(op, old(self).attrs_at(x))
                } else {
                    old(self).attrs_at(x)
                }),
    {
        let n = self.areas.len();
        let mut out: Vec<Area> = Vec::new();
        let mut i: usize = 0;
        proof {
            self.lemma_cut_ok(s as int);
            self.lemma_cut_ok(e as int);
        }
        assert(self.areas@.subrange(0, 0) =~= Seq::<Area>::empty());
        while i < n
            invariant
                n == self.areas@.len(),
                i <= n,
                self.wf(),
                s <= e,
                cuts_clean(self.areas@, s as int),
                cuts_clean(self.areas@, e as int),
                areas_wf(out@, self.base as int, self.end as int),
                forall|k: int|
                    0 <= k < out@.len() ==> #[trigger] out@[k].end() <= (if i == 0 {
                        self.base as int
                    } else {
                        self.areas@[i - 1].end()
                    }),
                forall|x: int|
                    #[trigger] attrs_in(out@, x) == (if s <= x < e {
                        edited(op, attrs_in(self.areas@.subrange(0, i as int), x))
                    } else {
                        attrs_in(self.areas@.subrange(0, i as int), x)
                    }),
            decreases n - i,
        {
            let a = self.areas[i];
            let ghost out0 = out@;
            proof {
                if i > 0 {
                    assert(self.areas@[i - 1].end() <= self.areas@[i as int].start);
                }
                lemma_prefix_attrs(self.areas@, i as int, self.base as int, self.end as int);
                assert forall|k: int| 0 <= k < out@.len() implies #[trigger] out@[k].end()
                    <= a.start by {}
            }
            push_pieces(&mut out, a, s, e, op, Ghost(self.base as int), Ghost(self.end as int));
            proof {
                assert forall|x: int| #[trigger] attrs_in(out@, x) == (if s <= x < e {
                    edited(op, attrs_in(self.areas@.subrange(0, i + 1), x))
                } else {
                    attrs_in(self.areas@.subrange(0, i + 1), x)
                }) by {}
            }
            i += 1;
        }
        proof {
            assert(self.areas@.subrange(0, n as int) =~= self.areas@);
        }
        self.areas = out;
    }

    /// Whether `x` lies in an area that may be read.
    pub open spec fn readable(&self, x: int) -> bool {
        self.attrs_at(x) matches Some(t) && t.flags.read
    }

    /// Whether `x` lies in an area that may be written.
    pub open spec fn writable(&self, x: int) -> bool {
        self.attrs_at(x) matches Some(t) && t.flags.write
    }

    /// Every mapped address of `[s, e)` allows the rights in `access`.
    pub open spec fn allowed(&self, s: int, e: int, access: MappingFlags) -> bool {
        forall|x: int|
            s <= x < e ==> (#[trigger] self.attrs_at(x) matches Some(t) ==> allows(t.flags, access))
    }

    /// A new area with these attributes may cover `[start, start + size)`:
    /// non-empty, on the backend's page boundaries, inside the window.
    pub open spec fn placeable(&self, start: int, size: int, attrs: AreaAttrs) -> bool {
        let ps = attrs.backend.spec_page_size().spec_bytes() as int;
        &&& size > 0
        &&& start % ps == 0
        &&& size % ps == 0
        &&& self.spec_base() <= start
        &&& start + size <= self.spec_end()
    }

    fn lookup(&self, addr: usize) -> (r: Option<u8>)
        ensures
            r == self.written(addr as int),
    {
        let mut j = self.log.len();
        assert(self.log@.subrange(0, j as int) =~= self.log@);
        while j > 0
            invariant
                j <= self.log@.len(),
                self.written(addr as int) == log_lookup(self.log@.subrange(0, j as int), addr as int),
            decreases j,
        {
            let e = self.log[j - 1];
            assert(self.log@.subrange(0, j as int).drop_last() =~= self.log@.subrange(
                0,
                j - 1,
            ));
            if e.0 == addr {
                return Some(e.1);
            }
            j -= 1;
        }
        None
    }

    /// Forgets what was written in `[s, e)`.
    fn clear_log(&mut self, s: usize, e: usize)
        ensures
            final(self).spec_base() == old(self).spec_base(),
            final(self).spec_end() == old(self).spec_end(),
            final(self).area_seq() == old(self).area_seq(),
            forall|x: int|
                #[trigger] final(self).written(x) == (if s <= x < e {
                    None
                } else {
                    old(self).written(x)
                }),
    {
        let n = self.log.len();
        let mut out: Vec<(usize, u8)> = Vec::new();
        let mut i: usize = 0;
        assert(self.log@.subrange(0, 0) =~= Seq::<(usize, u8)>::empty());
        while i < n
            invariant
                n == self.log@.len(),
                i <= n,
                forall|x: int|
                    #[trigger] log_lookup(out@, x) == (if s <= x < e {
                        None
                    } else {
                        log_lookup(self.log@.subrange(0, i as int), x)
                    }),
            decreases n - i,
        {
            let entry = self.log[i];
            proof {
                assert(self.log@.subrange(0, i + 1) =~= self.log@.subrange(0, i as int).push(entry));
                lemma_log_push(self.log@.subrange(0, i as int), entry);
                lemma_log_push(out@, entry);
            }
            if entry.0 < s || entry.0 >= e {
                out.push(entry);
            }
            i += 1;
        }
        assert(self.log@.subrange(0, n as int) =~= self.log@);
        self.log = out;
    }

    /// Whether no area meets `[s, e)`.
    fn check_vacant(&self, s: usize, e: usize) -> (r: bool)
        requires
            self.wf(),
            s < e,
        ensures
            r == self.vacant(s as int, e as int),
    {
        let n = self.areas.len();
        let mut i: usize = 0;
        while i < n
            invariant
                n == self.areas@.len(),
                i <= n,
                self.wf(),
                s < e,
                forall|k: int|
                    #![trigger self.areas@[k]]
                    0 <= k < i ==> self.areas@[k].end() <= s || e <= self.areas@[k].start,
            decreases n - i,
        {
            let a = self.areas[i];
            if a.start < e && s < a.start + a.size {
                let x = if a.start < s {
                    s
                } else {
                    a.start
                };
                assert(self.areas@[i as int].contains(x as int));
                assert(self.mapped(x as int));
                return false;
            }
            i += 1;
        }
        assert forall|x: int| s <= x < e implies !#[trigger] self.mapped(x) by {
            assert forall|k: int| 0 <= k < n implies !(#[trigger] self.areas@[k]).contains(x) by {}
        }
        true
    }

    /// Puts `new` among the areas, in address order.
    fn insert_area(&mut self, new: Area)
        requires
            old(self).wf(),
            new.well_placed(),
            old(self).spec_base() <= new.start,
            new.end() <= old(self).spec_end(),
            old(self).vacant(new.start as int, new.end()),
        ensures
            final(self).wf(),
            final(self).spec_base() == old(self).spec_base(),
            final(self).spec_end() == old(self).spec_end(),
            final(self).log_seq() == old(self).log_seq(),
            forall|x: int|
                #[trigger] final(self).attrs_at(x) == (if new.contains(x) {
                    Some(new.attrs)
                } else {
                    old(self).attrs_at(x)
                }),
    {
        let n = self.areas.len();
        let mut out: Vec<Area> = Vec::new();
        let mut placed = false;
        let mut i: usize = 0;
        let ghost mut last: int = self.base as int;
        assert(self.areas@.subrange(0, 0) =~= Seq::<Area>::empty());
        while i < n
            invariant
                n == self.areas@.len(),
                i <= n,
                self.wf(),
                new.well_placed(),
                self.base <= new.start,
                new.end() <= self.end,
                self.vacant(new.start as int, new.end()),
                areas_wf(out@, self.base as int, self.end as int),
                self.base <= last,
                forall|k: int| 0 <= k < out@.len() ==> #[trigger] out@[k].end() <= last,
                i < n ==> last <= self.areas@[i as int].start,
                !placed ==> last <= new.start,
                forall|x: int|
                    #[trigger] attrs_in(out@, x) == (if placed && new.contains(x) {
                        Some(new.attrs)
                    } else {
                        attrs_in(self.areas@.subrange(0, i as int), x)
                    }),
            decreases n - i,
        {
            let a = self.areas[i];
            proof {
                lemma_prefix_attrs(self.areas@, i as int, self.base as int, self.end as int);
            }
            if !placed && a.start >= new.start + new.size {
                proof {
                    lemma_push_area(out@, new, self.base as int, self.end as int);
                    last = new.end();
                }
                out.push(new);
                placed = true;
            }
            proof {
                if !placed {
                    let x = if a.start < new.start {
                        new.start as int
                    } else {
                        a.start as int
                    };
                    if a.end() > new.start {
                        assert(self.areas@[i as int].contains(x));
                        assert(self.mapped(x));
                    }
                }
                assert forall|x: int|
                    new.start <= x < new.end() implies !(#[trigger] a.contains(x)) by {
                    if a.contains(x) {
                        assert(self.areas@[i as int].contains(x));
                        assert(self.mapped(x));
                    }
                }
                lemma_push_area(out@, a, self.base as int, self.end as int);
                last = a.end();
                if i + 1 < n {
                    assert(self.areas@[i as int].end() <= self.areas@[i + 1].start);
                }
            }
            out.push(a);
            i += 1;
        }
        if !placed {
            proof {
                lemma_push_area(out@, new, self.base as int, self.end as int);
            }
            out.push(new);
        }
        proof {
            assert(self.areas@.subrange(0, n as int) =~= self.areas@);
            assert forall|x: int| #[trigger] attrs_in(out@, x) == (if new.contains(x) {
                Some(new.attrs)
            } else {
                attrs_in(self.areas@, x)
            }) by {
                if new.contains(x) && !placed {
                } else if new.contains(x) {
                }
            }
        }
        self.areas = out;
    }

    fn check_placeable(&self, start: usize, size: usize, attrs: AreaAttrs) -> (r: bool)
        requires
            self.wf(),
        ensures
            r == self.placeable(start as int, size as int, attrs),
            r ==> (Area { start, size, attrs }).well_placed(),
    {
        let ps = attrs.backend.page_size().bytes();
        let r = size != 0 && start % ps == 0 && size % ps == 0 && start >= self.base && start
            <= self.end && size <= self.end - start;
        proof {
            if r {
                let a = Area { start, size, attrs };
                match attrs.backend.spec_page_size() {
                    PageSize::Size4K => assert(a.end() % 0x1000 == 0),
                    PageSize::Size2M => assert(a.end() % 0x20_0000 == 0),
                    PageSize::Size1G => assert(a.end() % 0x4000_0000 == 0),
                }
            }
        }
        r
    }

    /// Maps `[start, start + size)` as a new area with the given attributes.
    ///
    /// Fails with `InvalidInput` unless the range is placeable, and with
    /// `AlreadyExists` if it meets an existing area. A new area holds no
    /// written bytes.
    pub fn map(&mut self, start: usize, size: usize, attrs: AreaAttrs) -> (r: Result<(), MmError>)
        requires
            old(self).wf(),
        ensures
            final(self).wf(),
            final(self).spec_base() == old(self).spec_base(),
            final(self).spec_end() == old(self).spec_end(),
            !old(self).placeable(start as int, size as int, attrs) ==> r == Err::<(), MmError>(
                MmError::InvalidInput,
            ),
            old(self).placeable(start as int, size as int, attrs) && !old(self).vacant(
                start as int,
                start + size,
            ) ==> r == Err::<(), MmError>(MmError::AlreadyExists),
            old(self).placeable(start as int, size as int, attrs) && old(self).vacant(
                start as int,
                start + size,
            ) ==> r is Ok,
            r is Err ==> *final(self) == *old(self),
            r is Ok ==> forall|x: int|
                #[trigger] final(self).attrs_at(x) == (if start <= x < start + size {
                    Some(attrs)
                } else {
                    old(self).attrs_at(x)
                }),
            r is Ok ==> forall|x: int|
                #[trigger] final(self).written(x) == (if start <= x < start + size {
                    None
                } else {
                    old(self).written(x)
                }),
    {
        if !self.check_placeable(start, size, attrs) {
            return Err(MmError::InvalidInput);
        }
        let e = start + size;
        if !self.check_vacant(start, e) {
            return Err(MmError::AlreadyExists);
        }
        let new = Area { start, size, attrs };
        let ghost prev = *self;
        self.clear_log(start, e);
        let ghost cleared = *self;
        assert(self.vacant(start as int, e as int)) by {
            assert forall|x: int| start <= x < e implies !#[trigger] self.mapped(x) by {
                assert(!prev.mapped(x));
            }
        }
        self.insert_area(new);
        assert forall|x: int| #[trigger] self.written(x) == (if start <= x < e {
            None
        } else {
            prev.written(x)
        }) by {
            assert(cleared.written(x) == self.written(x));
        }
        Ok(())
    }

    /// Removes `[start, start + size)` from the areas, splitting those that
    /// straddle its ends; what was written there is gone. Unmapping a range
    /// with no area is no error.
    pub fn unmap(&mut self, start: usize, size: usize) -> (r: Result<(), MmError>)
        requires
            old(self).wf(),
        ensures
            final(self).wf(),
            final(self).spec_base() == old(self).spec_base(),
            final(self).spec_end() == old(self).spec_end(),
            r is Ok <==> old(self).editable(start as int, size as int),
            r is Err ==> r == Err::<(), MmError>(MmError::InvalidInput) && *final(self) == *old(
                self,
            ),
            r is Ok ==> forall|x: int|
                #[trigger] final(self).attrs_at(x) == (if start <= x < start + size {
                    None
                } else {
                    old(self).attrs_at(x)
                }),
            r is Ok ==> forall|x: int|
                #[trigger] final(self).written(x) == (if start <= x < start + size {
                    None
                } else {
                    old(self).written(x)
                }),
    {
        if !self.check_editable(start, size) {
            return Err(MmError::InvalidInput);
        }
        if size == 0 {
            return Ok(());
        }
        let ghost prev = *self;
        self.edit(start, start + size, Edit::Unmap);
        let ghost mid = *self;
        self.clear_log(start, start + size);
        assert forall|x: int| #[trigger] self.attrs_at(x) == (if start <= x < start + size {
            None
        } else {
            prev.attrs_at(x)
        }) by {
            assert(mid.attrs_at(x) == self.attrs_at(x));
        }
        Ok(())
    }

    /// Gives every mapped address of `[start, start + size)` the access rights
    /// `flags`, splitting the areas that straddle its ends.
    pub fn protect(&mut self, start: usize, size: usize, flags: MappingFlags) -> (r: Result<
        (),
        MmError,
    >)
        requires
            old(self).wf(),
        ensures
            final(self).wf(),
            final(self).spec_base() == old(self).spec_base(),
            final(self).spec_end() == old(self).spec_end(),
            r is Ok <==> old(self).editable(start as int, size as int),
            r is Err ==> r == Err::<(), MmError>(MmError::InvalidInput) && *final(self) == *old(
                self,
            ),
            r is Ok ==> forall|x: int|
                #[trigger] final(self).attrs_at(x) == (if start <= x < start + size {
                    match old(self).attrs_at(x) {
                        Some(t) => Some(AreaAttrs { flags, ..t }),
                        None => None,
                    }
                } else {
                    old(self).attrs_at(x)
                }),
            forall|x: int| #[trigger] final(self).written(x) == old(self).written(x),
    {
        if !self.check_editable(start, size) {
            return Err(MmError::InvalidInput);
        }
        if size == 0 {
            return Ok(());
        }
        self.edit(start, start + size, Edit::Protect { flags });
        Ok(())
    }

    /// Sets whether a child process inherits the mapped addresses of
    /// `[start, start + size)`.
    fn set_fork(&mut self, start: usize, size: usize, dontfork: bool) -> (r: Result<(), MmError>)
        requires
            old(self).wf(),
        ensures
            final(self).wf(),
            final(self).spec_base() == old(self).spec_base(),
            final(self).spec_end() == old(self).spec_end(),
            r is Ok <==> old(self).editable(start as int, size as int),
            r is Err ==> r == Err::<(), MmError>(MmError::InvalidInput) && *final(self) == *old(
                self,
            ),
            r is Ok ==> forall|x: int|
                #[trigger] final(self).attrs_at(x) == (if start <= x < start + size {
                    match old(self).attrs_at(x) {
                        Some(t) => Some(AreaAttrs { dontfork, ..t }),
                        None => None,
                    }
                } else {
                    old(self).attrs_at(x)
                }),
            forall|x: int| #[trigger] final(self).written(x) == old(self).written(x),
    {
        if !self.check_editable(start, size) {
            return Err(MmError::InvalidInput);
        }
        if size == 0 {
            return Ok(());
        }
        self.edit(start, start + size, Edit::Fork { dontfork });
        Ok(())
    }

    /// Keeps a child process from inheriting `[start, start + size)`.
    pub fn set_dontfork(&mut self, start: usize, size: usize) -> (r: Result<(), MmError>)
        requires
            old(self).wf(),
        ensures
            final(self).wf(),
            final(self).spec_base() == old(self).spec_base(),
            final(self).spec_end() == old(self).spec_end(),
            r is Ok <==> old(self).editable(start as int, size as int),
            r is Err ==> r == Err::<(), MmError>(MmError::InvalidInput) && *final(self) == *old(
                self,
            ),
            r is Ok ==> forall|x: int|
                #[trigger] final(self).attrs_at(x) == (if start <= x < start + size {
                    match old(self).attrs_at(x) {
                        Some(t) => Some(AreaAttrs { dontfork: true, ..t }),
                        None => None,
                    }
                } else {
                    old(self).attrs_at(x)
                }),
            forall|x: int| #[trigger] final(self).written(x) == old(self).written(x),
    {
        self.set_fork(start, size, true)
    }

    /// Lets a child process inherit `[start, start + size)` again.
    pub fn set_dofork(&mut self, start: usize, size: usize) -> (r: Result<(), MmError>)
        requires
            old(self).wf(),
        ensures
            final(self).wf(),
            final(self).spec_base() == old(self).spec_base(),
            final(self).spec_end() == old(self).spec_end(),
            r is Ok <==> old(self).editable(start as int, size as int),
            r is Err ==> r == Err::<(), MmError>(MmError::InvalidInput) && *final(self) == *old(
                self,
            ),
            r is Ok ==> forall|x: int|
                #[trigger] final(self).attrs_at(x) == (if start <= x < start + size {
                    match old(self).attrs_at(x) {
                        Some(t) => Some(AreaAttrs { dontfork: false, ..t }),
                        None => None,
                    }
                } else {
                    old(self).attrs_at(x)
                }),
            forall|x: int| #[trigger] final(self).written(x) == old(self).written(x),
    {
        self.set_fork(start, size, false)
    }

    /// Evicts the pages of `[start, start + size)`: the areas stay, and what
    /// was written there reads as zero again.
    pub fn clear_area(&mut self, start: usize, size: usize) -> (r: Result<(), MmError>)
        requires
            old(self).wf(),
        ensures
            final(self).wf(),
            final(self).spec_base() == old(self).spec_base(),
            final(self).spec_end() == old(self).spec_end(),
            final(self).area_seq() == old(self).area_seq(),
            r is Ok <==> old(self).range_ok(start as int, size as int),
            r is Err ==> r == Err::<(), MmError>(MmError::InvalidInput) && *final(self) == *old(
                self,
            ),
            r is Ok ==> forall|x: int|
                #[trigger] final(self).written(x) == (if start <= x < start + size {
                    None
                } else {
                    old(self).written(x)
                }),
    {
        if !self.check_range(start, size) {
            return Err(MmError::InvalidInput);
        }
        self.clear_log(start, start + size);
        Ok(())
    }

    /// Faults in `[start, start + size)` for the rights in `access`. The range
    /// must be in the window on page boundaries (else `InvalidInput`), fully
    /// mapped, and allow `access` throughout (else `BadAddress`).
    pub fn populate_area(&self, start: usize, size: usize, access: MappingFlags) -> (r: Result<
        (),
        MmError,
    >)
        requires
            self.wf(),
        ensures
            !self.range_ok(start as int, size as int) ==> r == Err::<(), MmError>(
                MmError::InvalidInput,
            ),
            self.range_ok(start as int, size as int) ==> (r is Ok <==> self.covered(
                start as int,
                start + size,
            ) && self.allowed(start as int, start + size, access)),
            self.range_ok(start as int, size as int) && r is Err ==> r == Err::<(), MmError>(
                MmError::BadAddress,
            ),
    {
        if !self.check_range(start, size) {
            return Err(MmError::InvalidInput);
        }
        if !self.contains_range(start, size) {
            return Err(MmError::BadAddress);
        }
        if size == 0 {
            return Ok(());
        }
        let e = start + size;
        let n = self.areas.len();
        let mut i: usize = 0;
        while i < n
            invariant
                n == self.areas@.len(),
                i <= n,
                self.wf(),
                e == start + size,
                size > 0,
                self.range_ok(start as int, size as int),
                forall|k: int|
                    #![trigger self.areas@[k]]
                    0 <= k < i && self.areas@[k].start < e && start < self.areas@[k].end()
                        ==> allows(self.areas@[k].attrs.flags, access),
            decreases n - i,
        {
            let a = self.areas[i];
            let f = a.attrs.flags;
            if a.start < e && start < a.start + a.size && ((access.read && !f.read) || (
            access.write && !f.write) || (access.execute && !f.execute) || (access.user
                && !f.user)) {
                let x = if a.start < start {
                    start
                } else {
                    a.start
                };
                proof {
                    lemma_attrs_unique(self.areas@, i as int, x as int);
                }
                assert(!allows(f, access));
                assert(self.attrs_at(x as int) == Some(a.attrs));
                return Err(MmError::BadAddress);
            }
            i += 1;
        }
        assert forall|x: int| start <= x < e implies (#[trigger] self.attrs_at(x) matches Some(t)
            ==> allows(t.flags, access)) by {
            if self.mapped(x) {
                let k = choose|k: int| 0 <= k < n && #[trigger] self.areas@[k].contains(x);
                lemma_attrs_unique(self.areas@, k, x);
            }
        }
        Ok(())
    }

    /// Reads the byte at `addr`, which must lie in a readable area.
    pub fn read_byte(&self, addr: usize) -> (r: Result<u8, MmError>)
        requires
            self.wf(),
        ensures
            r == (if self.readable(addr as int) {
                Ok(self.byte_at(addr as int))
            } else {
                Err(MmError::BadAddress)
            }),
    {
        match self.find_area(addr) {
            Some(a) => {
                if a.attrs.flags.read {
                    match self.lookup(addr) {
                        Some(v) => Ok(v),
                        None => Ok(0),
                    }
                } else {
                    Err(MmError::BadAddress)
                }
            },
            None => Err(MmError::BadAddress),
        }
    }

    /// Writes `value` at `addr`, which must lie in a writable area.
    pub fn write_byte(&mut self, addr: usize, value: u8) -> (r: Result<(), MmError>)
        requires
            old(self).wf(),
        ensures
            final(self).wf(),
            final(self).spec_base() == old(self).spec_base(),
            final(self).spec_end() == old(self).spec_end(),
            final(self).area_seq() == old(self).area_seq(),
            r is Ok <==> old(self).writable(addr as int),
            r is Err ==> r == Err::<(), MmError>(MmError::BadAddress) && *final(self) == *old(self),
            r is Ok ==> forall|x: int|
                #[trigger] final(self).written(x) == (if x == addr {
                    Some(value)
                } else {
                    old(self).written(x)
                }),
    {
        match self.find_area(addr) {
            Some(a) => {
                if a.attrs.flags.write {
                    proof {
                        lemma_log_push(self.log@, (addr, value));
                    }
                    self.log.push((addr, value));
                    Ok(())
                } else {
                    Err(MmError::BadAddress)
                }
            },
            None => Err(MmError::BadAddress),
        }
    }

    /// Reads `len` bytes from `addr` on, all of which must be readable.
    pub fn read_bytes(&self, addr: usize, len: usize) -> (r: Result<Vec<u8>, MmError>)
        requires
            self.wf(),
            addr + len <= usize::MAX,
        ensures
            r is Ok <==> forall|i: int| 0 <= i < len ==> #[trigger] self.readable(addr + i),
            r is Err ==> r == Err::<Vec<u8>, MmError>(MmError::BadAddress),
            r matches Ok(v) ==> v@.len() == len && forall|i: int|
                0 <= i < len ==> #[trigger] v@[i] == self.byte_at(addr + i),
    {
        let mut out: Vec<u8> = Vec::new();
        let mut i: usize = 0;
        while i < len
            invariant
                self.wf(),
                i <= len,
                addr + len <= usize::MAX,
                out@.len() == i,
                forall|k: int| 0 <= k < i ==> #[trigger] self.readable(addr + k),
                forall|k: int| 0 <= k < i ==> #[trigger] out@[k] == self.byte_at(addr + k),
            decreases len - i,
        {
            match self.read_byte(addr + i) {
                Ok(v) => out.push(v),
                Err(e) => {
                    assert(!self.readable(addr + i));
                    return Err(e);
                },
            }
            i += 1;
        }
        Ok(out)
    }

    /// Writes `data` from `addr` on, all of which must be writable; nothing is
    /// written otherwise.
    pub fn write_bytes(&mut self, addr: usize, data: &Vec<u8>) -> (r: Result<(), MmError>)
        requires
            old(self).wf(),
            addr + data@.len() <= usize::MAX,
        ensures
            final(self).wf(),
            final(self).spec_base() == old(self).spec_base(),
            final(self).spec_end() == old(self).spec_end(),
            final(self).area_seq() == old(self).area_seq(),
            r is Ok <==> forall|i: int| 0 <= i < data@.len() ==> #[trigger] old(self).writable(addr + i),
            r is Err ==> r == Err::<(), MmError>(MmError::BadAddress) && *final(self) == *old(self),
            r is Ok ==> forall|x: int|
                #[trigger] final(self).written(x) == (if addr <= x < addr + data@.len() {
                    Some(data@[x - addr])
                } else {
                    old(self).written(x)
                }),
    {
        let len = data.len();
        let mut i: usize = 0;
        while i < len
            invariant
                self.wf(),
                i <= len,
                len == data@.len(),
                addr + len <= usize::MAX,
                forall|k: int| 0 <= k < i ==> #[trigger] self.writable(addr + k),
            decreases len - i,
        {
            match self.find_area(addr + i) {
                Some(a) => {
                    if !a.attrs.flags.write {
                        assert(!self.writable(addr + i));
                        return Err(MmError::BadAddress);
                    }
                },
                None => {
                    assert(!self.writable(addr + i));
                    return Err(MmError::BadAddress);
                },
            }
            i += 1;
        }
        let ghost prev = *self;
        let mut j: usize = 0;
        while j < len
            invariant
                self.wf(),
                j <= len,
                len == data@.len(),
                addr + len <= usize::MAX,
                self.spec_base() == prev.spec_base(),
                self.spec_end() == prev.spec_end(),
                self.area_seq() == prev.area_seq(),
                forall|k: int| 0 <= k < len ==> #[trigger] prev.writable(addr + k),
                forall|x: int|
                    #[trigger] self.written(x) == (if addr <= x < addr + j {
                        Some(data@[x - addr])
                    } else {
                        prev.written(x)
                    }),
            decreases len - j,
        {
            let r = self.write_byte(addr + j, data[j]);
            assert(r is Ok) by {
                assert(prev.writable(addr + j));
            }
            j += 1;
        }
        Ok(())
    }

    /// A range that meets no area, in the window on standard page boundaries,
    /// can be unmapped, protected or re-flagged.
    pub proof fn lemma_vacant_editable(&self, start: int, size: int)
        requires
            self.wf(),
            self.range_ok(start, size),
            self.vacant(start, start + size),
        ensures
            self.editable(start, size),
    {
        if size > 0 {
            assert(!self.mapped(start));
            let c = start + size;
            assert forall|i: int|
                #![trigger self.areas@[i]]
                0 <= i < self.areas@.len() && self.areas@[i].start < c
                    < self.areas@[i].end() implies c % self.areas@[i].page_bytes() == 0 by {
                assert(self.areas@[i].contains(c - 1));
                assert(self.mapped(c - 1));
            }
            self.lemma_cut_ok(c);
        }
    }

    /// A mapped range lies inside the window.
    pub proof fn lemma_covered_in_window(&self, s: int, len: int)
        requires
            self.wf(),
            len > 0,
            self.covered(s, s + len),
        ensures
            self.spec_base() <= s,
            s + len <= self.spec_end(),
    {
        assert(self.mapped(s));
        assert(self.mapped(s + len - 1));
        let i = choose|i: int| 0 <= i < self.areas@.len() && #[trigger] self.areas@[i].contains(s);
        let j = choose|j: int|
            0 <= j < self.areas@.len() && #[trigger] self.areas@[j].contains(s + len - 1);
        assert(self.areas@[i].contains(s));
        assert(self.areas@[j].contains(s + len - 1));
    }

    /// `[c, c + size)` is inside the window, starts on a boundary of `align`,
    /// and meets no area.
    pub open spec fn free_fit(&self, c: int, size: int, align: PageSize) -> bool {
        &&& c % (align.spec_bytes() as int) == 0
        &&& self.spec_base() <= c
        &&& c + size <= self.spec_end()
        &&& self.vacant(c, c + size)
    }

    /// The lowest address `r`, on a boundary of `align`, at or above both
    /// `hint` and the window's base, such that `[r, r + size)` is inside the
    /// window and meets no area; `None` when the scan finds none.
    pub fn find_free_area(&self, hint: usize, size: usize, align: PageSize) -> (r: Option<usize>)
        requires
            self.wf(),
        ensures
            r matches Some(a) ==> {
                &&& a >= hint
                &&& a >= self.spec_base()
                &&& a % align.spec_bytes() == 0
                &&& a + size <= self.spec_end()
                &&& self.vacant(a as int, a + size)
            },
            r is None && size > 0 ==> forall|c: int|
                c >= hint ==> !#[trigger] self.free_fit(c, size as int, align),
    {
        let al = align.bytes();
        let lo = if hint > self.base { hint } else { self.base };
        if lo > usize::MAX - al {
            return None;
        }
        let mut cur = memory_addr::align_up(lo, al);
        proof {
            assert forall|c: int| hint <= c < cur && size > 0 implies !#[trigger] self.free_fit(
                c,
                size as int,
                align,
            ) by {
                if c >= lo && c % (al as int) == 0 {
                    lemma_align_up_least(c, lo as int, al as int);
                }
            }
        }
        let n = self.areas.len();
        let mut i: usize = 0;
        while i < n
            invariant
                n == self.areas@.len(),
                i <= n,
                self.wf(),
                al == align.spec_bytes(),
                cur >= hint,
                cur >= self.base,
                cur % al == 0,
                forall|k: int| 0 <= k < i ==> (#[trigger] self.areas@[k]).end() <= cur,
                forall|c: int|
                    hint <= c < cur && size > 0 ==> !#[trigger] self.free_fit(c, size as int, align),
            decreases n - i,
        {
            let a = self.areas[i];
            if cur <= usize::MAX - size && cur + size <= a.start {
                proof {
                    assert forall|x: int| cur <= x < cur + size implies !#[trigger] self.mapped(
                        x,
                    ) by {
                        assert forall|k: int| 0 <= k < n implies !(#[trigger] self.areas@[
                            k
                        ]).contains(x) by {
                            if k > i {
                                assert(self.areas@[i as int].end() <= self.areas@[k].start);
                            }
                        }
                    }
                }
                return Some(cur);
            }
            let a_end: usize = a.start + a.size;
            if a_end > cur {
                proof {
                    assert forall|c: int|
                        cur <= c < a_end && size > 0 implies !#[trigger] self.free_fit(
                        c,
                        size as int,
                        align,
                    ) by {
                        if c + size <= self.end {
                            let x = if c < a.start {
                                a.start as int
                            } else {
                                c
                            };
                            assert(self.areas@[i as int].contains(x));
                            assert(self.mapped(x));
                        }
                    }
                }
                if a_end > usize::MAX - al {
                    return None;
                }
                let ghost old_cur = cur;
                cur = memory_addr::align_up(a_end, al);
                proof {
                    assert forall|c: int| hint <= c < cur && size > 0 implies !#[trigger] self.free_fit(
                        c,
                        size as int,
                        align,
                    ) by {
                        if c >= a_end && c % (al as int) == 0 {
                            lemma_align_up_least(c, a_end as int, al as int);
                        }
                        if c >= old_cur && c < a_end {
                            assert(!self.free_fit(c, size as int, align));
                        }
                    }
                }
            }
            i += 1;
        }
        if cur <= usize::MAX - size && cur + size <= self.end {
            proof {
                assert forall|x: int| cur <= x < cur + size implies !#[trigger] self.mapped(x) by {
                    assert forall|k: int| 0 <= k < n implies !(#[trigger] self.areas@[k]).contains(
                        x,
                    ) by {}
                }
            }
            Some(cur)
        } else {
            None
        }
    }
}

} // verus!
