//! The pool of physical pages that translation tables are taken from.
use vstd::prelude::*;
use crate::arch::PAGE_SIZE;
use crate::hw::HW;
use crate::world::World;

verus! {

/// A bump allocator over the physical pages in `[start, end)`.
pub struct PageArena {
    pub start: usize,
    pub end: usize,
    pub current: usize,
}

/// What one `get` does to an arena: the page it hands out (if any) and the
/// arena afterwards.
pub open spec fn get_spec(a: PageArena) -> (Option<usize>, PageArena) {
    if a.current < a.end {
        (
            Some(a.current),
            PageArena { start: a.start, end: a.end, current: (a.current + PAGE_SIZE) as usize },
        )
    } else {
        (None, a)
    }
}

/// `get` can be called on `a` without its page cursor overflowing.
pub open spec fn get_allowed(a: PageArena) -> bool {
    a.current < a.end ==> a.current + PAGE_SIZE <= usize::MAX
}

impl PageArena {
    /// An arena that hands out the pages of `[start, end)`, lowest first.
    pub fn new(start: usize, end: usize) -> (r: PageArena)
        ensures
            r.start == start,
            r.end == end,
            r.current == start,
    {
        PageArena { start: start, end: end, current: start }
    }

    /// Hands out the next page, or `None` once the arena is used up.
    pub fn get(&mut self) -> (r: Option<usize>)
        requires
            get_allowed(*old(self)),
        ensures
            (r, *final(self)) == get_spec(*old(self)),
    {
        if self.current < self.end {
            let ret = self.current;
            self.current = ret + PAGE_SIZE;
            Some(ret)
        } else {
            None
        }
    }
}

/// Two pages handed out one after the other never overlap: the second
/// starts at least a page above the first, and both lie in `[start, end)`.
pub proof fn lemma_get_pages_disjoint(a0: PageArena, p: usize, q: usize)
    requires
        get_allowed(a0),
        get_spec(a0).0 == Some(p),
        get_spec(get_spec(a0).1).0 == Some(q),
    ensures
        p + PAGE_SIZE <= q,
        a0.start <= a0.current ==> a0.start <= p,
        q < a0.end,
{
}

/// An arena never hands a page out again: every page of a later `get` lies
/// above the cursor of every earlier arena, and the cursor never goes down.
pub proof fn lemma_get_monotonic(a: PageArena)
    ensures
        get_spec(a).1.start == a.start,
        get_spec(a).1.end == a.end,
        get_allowed(a) ==> get_spec(a).1.current >= a.current,
        get_allowed(a) ==> (get_spec(a).0 matches Some(p) ==> p == a.current && get_spec(a).1.current == p + PAGE_SIZE),
{
}

/// The arena `a` after `n` calls of `get`.
pub open spec fn after_gets(a: PageArena, n: nat) -> PageArena
    decreases n,
{
    if n == 0 {
        a
    } else {
        get_spec(after_gets(a, (n - 1) as nat)).1
    }
}

/// What the `k`-th call of `get` on `a` (counting from 0) hands out.
pub open spec fn kth_get(a: PageArena, k: nat) -> Option<usize> {
    get_spec(after_gets(a, k)).0
}

/// An arena over whole pages that can hand out every page without its
/// cursor overflowing.
pub open spec fn arena_aligned(a: PageArena) -> bool {
    &&& a.start % PAGE_SIZE == 0
    &&& a.end % PAGE_SIZE == 0
    &&& a.end <= usize::MAX - 0xFFFF
    &&& a.current == a.start
}

/// However many pages a fresh, page-aligned arena has handed out, its bounds
/// stay put, its cursor stays page aligned and within them, the next call
/// is allowed, and the page it hands out lies wholly inside the arena.
pub proof fn lemma_pages_inside(a0: PageArena, n: nat)
    requires
        arena_aligned(a0),
    ensures
        after_gets(a0, n).start == a0.start,
        after_gets(a0, n).end == a0.end,
        a0.start <= after_gets(a0, n).current,
        after_gets(a0, n).current % PAGE_SIZE == 0,
        after_gets(a0, n).current < a0.end ==> after_gets(a0, n).current + PAGE_SIZE <= a0.end,
        get_allowed(after_gets(a0, n)),
        kth_get(a0, n) matches Some(r) ==> a0.start <= r && r + PAGE_SIZE <= a0.end && r % PAGE_SIZE
            == 0,
    decreases n,
{
    if n > 0 {
        lemma_pages_inside(a0, (n - 1) as nat);
    }
}

/// Each page handed out is exactly one page above the one before it, and
/// once the arena hands out nothing it never hands out anything again.
pub proof fn lemma_gets_rise(a0: PageArena, k: nat)
    requires
        a0.end <= usize::MAX - 0xFFFF,
    ensures
        kth_get(a0, k) matches Some(p) ==> (kth_get(a0, k + 1) matches Some(q) ==> q == p
            + PAGE_SIZE),
        kth_get(a0, k) is None ==> kth_get(a0, k + 1) is None,
        after_gets(a0, k).end == a0.end,
{
    lemma_arena_end_stays(a0, k);
    assert(after_gets(a0, k + 1) == get_spec(after_gets(a0, k)).1);
}

proof fn lemma_arena_end_stays(a0: PageArena, k: nat)
    ensures
        after_gets(a0, k).end == a0.end,
        after_gets(a0, k).start == a0.start,
    decreases k,
{
    if k > 0 {
        lemma_arena_end_stays(a0, (k - 1) as nat);
    }
}

/// Pages handed out rise strictly: the `l`-th lies `l - k` pages above the
/// `k`-th, so no page is handed out twice.
pub proof fn lemma_gets_never_repeat(a0: PageArena, k: nat, l: nat)
    requires
        a0.end <= usize::MAX - 0xFFFF,
        k < l,
        kth_get(a0, k) is Some,
        kth_get(a0, l) is Some,
    ensures
        kth_get(a0, l)->0 == kth_get(a0, k)->0 + (l - k) * PAGE_SIZE,
    decreases l - k,
{
    lemma_gets_rise(a0, (l - 1) as nat);
    if l == k + 1 {
    } else {
        if kth_get(a0, (l - 1) as nat) is None {
            assert(kth_get(a0, l) is None);
        }
        lemma_gets_never_repeat(a0, k, (l - 1) as nat);
        assert((l - 1 - k) * PAGE_SIZE + PAGE_SIZE == (l - k) * PAGE_SIZE) by (nonlinear_arith);
    }
}

/// Memory-management setup of the world; nothing is needed yet.
pub fn init<H: HW>(world: &mut World<H>)
    ensures
        *final(world) == *old(world),
{
}

} // verus!
