//! The state the kernel threads through its initialisation.
use vstd::prelude::*;
use crate::arch::PAGE_SIZE;
use crate::hw::HW;
use crate::mm::{PageArena, get_spec};
use crate::pte::{ENTRIES, PA_LIMIT, is_out_addr};

verus! {

/// The kernel's world: the hardware, and the page pool together with the
/// contents of the pages that the pool has handed out for translation tables.
pub struct World<H: HW> {
    pub int: u64,
    pub hw: H,
    pub page_pool: PageArena,
    /// `pt_pages[k]` holds the descriptors of the page at
    /// `page_pool.start + k * PAGE_SIZE`, the `k`-th page the pool handed out.
    pub pt_pages: Vec<Vec<u64>>,
}

/// A pool whose pages can all hold translation tables: page aligned, with
/// every page below 2^48 and the cursor unable to overflow.
pub open spec fn pool_usable(p: PageArena) -> bool {
    &&& p.start % PAGE_SIZE == 0
    &&& p.current == p.start
    &&& p.end <= PA_LIMIT
    &&& p.end + PAGE_SIZE <= usize::MAX
}

/// A pool can hold translation tables exactly when it starts on a page
/// boundary with no page handed out, ends at or below 2^48, and its end can
/// move one page on without overflowing: wherever it lies below 2^48 and
/// however many pages it has.
pub proof fn lemma_pool_usable_exactly(p: PageArena)
    ensures
        pool_usable(p) <==> (p.start % PAGE_SIZE == 0 && p.current == p.start && p.end
            <= 0x1_0000_0000_0000u64 && p.end + PAGE_SIZE <= usize::MAX),
{
}

impl<H: HW> World<H> {
    /// The world of the machine `hw` with the page pool `page_pool`, none of
    /// whose pages are in use yet; `None` if the pool cannot hold
    /// translation tables.
    pub fn new(tag: u64, hw: H, page_pool: PageArena) -> (r: Option<World<H>>)
        ensures
            r is Some <==> pool_usable(page_pool),
            r is Some <==> (page_pool.start % PAGE_SIZE == 0 && page_pool.current == page_pool.start
                && page_pool.end <= PA_LIMIT && page_pool.end + PAGE_SIZE <= usize::MAX),
            r matches Some(w) ==> {
                &&& w.wf()
                &&& w.int == tag
                &&& w.hw == hw
                &&& w.page_pool == page_pool
                &&& w.pt_pages@.len() == 0
            },
    {
        if page_pool.start % PAGE_SIZE == 0 && page_pool.current == page_pool.start
            && page_pool.end as u64 <= PA_LIMIT && page_pool.end <= usize::MAX - PAGE_SIZE {
            Some(World { int: tag, hw: hw, page_pool: page_pool, pt_pages: Vec::new() })
        } else {
            None
        }
    }

    /// `a` is the address of a page that the pool has handed out.
    pub open spec fn holds_page(&self, a: u64) -> bool {
        &&& self.page_pool.start <= a
        &&& (a - self.page_pool.start) % (PAGE_SIZE as int) == 0
        &&& (a - self.page_pool.start) / (PAGE_SIZE as int) < self.pt_pages@.len()
    }

    /// Position in `pt_pages` of the page at `a`.
    pub open spec fn page_slot(&self, a: u64) -> int {
        (a - self.page_pool.start) / (PAGE_SIZE as int)
    }

    /// The descriptors stored in the page at `a`.
    pub open spec fn page_at(&self, a: u64) -> Seq<u64> {
        self.pt_pages@[self.page_slot(a)]@
    }

    /// Two different pages that the pool handed out are stored apart, each at
    /// a slot of `pt_pages`.
    pub proof fn lemma_slots_apart(&self, a: u64, b: u64)
        requires
            self.holds_page(a),
            self.holds_page(b),
        ensures
            a != b ==> self.page_slot(a) != self.page_slot(b),
            0 <= self.page_slot(a) < self.pt_pages@.len(),
    {
        let s = self.page_pool.start as int;
        let p = PAGE_SIZE as int;
        vstd::arithmetic::div_mod::lemma_fundamental_div_mod(a - s, p);
        vstd::arithmetic::div_mod::lemma_fundamental_div_mod(b - s, p);
    }

    /// The pool and the page contents agree, every handed-out page holds a
    /// full table, and every page the pool can hand out is a valid output
    /// address.
    pub open spec fn wf(&self) -> bool {
        &&& self.page_pool.start % PAGE_SIZE == 0
        &&& self.page_pool.current == self.page_pool.start + self.pt_pages@.len() * PAGE_SIZE
        &&& self.page_pool.end <= PA_LIMIT
        &&& self.page_pool.end + PAGE_SIZE <= usize::MAX
        &&& forall|k: int| 0 <= k < self.pt_pages@.len() ==> (#[trigger] self.pt_pages@[k])@.len() == ENTRIES
    }

    /// Whether the world is consistent (`wf`).
    pub fn is_wf(&self) -> (r: bool)
        ensures
            r == self.wf(),
    {
        let p = &self.page_pool;
        let n = self.pt_pages.len();
        if p.start % PAGE_SIZE != 0 || p.current < p.start || (p.end as u64) > PA_LIMIT || p.end
            > usize::MAX - PAGE_SIZE {
            return false;
        }
        let d = p.current - p.start;
        if d % PAGE_SIZE != 0 || d / PAGE_SIZE != n {
            return false;
        }
        let mut k: usize = 0;
        while k < n
            invariant
                k <= n,
                n == self.pt_pages@.len(),
                forall|j: int| 0 <= j < k ==> (#[trigger] self.pt_pages@[j])@.len() == ENTRIES,
            decreases n - k,
        {
            if self.pt_pages[k].len() != ENTRIES {
                return false;
            }
            k = k + 1;
        }
        true
    }

    /// Takes a fresh page from the pool for a translation table and fills it
    /// with invalid descriptors; `None` once the pool is used up.
    pub fn alloc_table(&mut self) -> (r: Option<u64>)
        requires
            old(self).wf(),
        ensures
            final(self).wf(),
            final(self).int == old(self).int,
            final(self).hw == old(self).hw,
            final(self).page_pool == get_spec(old(self).page_pool).1,
            r is Some <==> get_spec(old(self).page_pool).0 is Some,
            r matches Some(a) ==> {
                &&& a == old(self).page_pool.current
                &&& is_out_addr(a)
                &&& !old(self).holds_page(a)
                &&& final(self).holds_page(a)
                &&& final(self).page_at(a) == Seq::new(ENTRIES as nat, |i: int| 0u64)
                &&& final(self).pt_pages@.len() == old(self).pt_pages@.len() + 1
                &&& final(self).page_slot(a) == old(self).pt_pages@.len()
                &&& forall|k: int| 0 <= k < old(self).pt_pages@.len()
                    ==> #[trigger] final(self).pt_pages@[k] == old(self).pt_pages@[k]
                &&& forall|b: u64| old(self).holds_page(b) ==> final(self).holds_page(b)
                    && #[trigger] final(self).page_at(b) == old(self).page_at(b)
            },
            r is None ==> *final(self) == *old(self),
    {
        match self.page_pool.get() {
            None => None,
            Some(p) => {
                let mut t: Vec<u64> = Vec::new();
                while t.len() < ENTRIES
                    invariant
                        t.len() <= ENTRIES,
                        forall|i: int| 0 <= i < t@.len() ==> t@[i] == 0u64,
                    decreases ENTRIES - t.len(),
                {
                    t.push(0u64);
                }
                assert(t@ == Seq::new(ENTRIES as nat, |i: int| 0u64));
                self.pt_pages.push(t);
                let a = p as u64;
                proof {
                    let ghost w = *old(self);
                    assert(w.page_slot(a) == w.pt_pages@.len());
                    assert forall|b: u64| w.holds_page(b) implies self.holds_page(b)
                        && #[trigger] self.page_at(b) == w.page_at(b) by {
                        assert(self.pt_pages@[w.page_slot(b)] == w.pt_pages@[w.page_slot(b)]);
                    }
                }
                Some(a)
            },
        }
    }

    /// Takes the contents of the page at `a` out of the world, leaving an
    /// empty placeholder.
    pub fn take_page(&mut self, a: u64) -> (r: Vec<u64>)
        requires
            old(self).holds_page(a),
        ensures
            r@ == old(self).page_at(a),
            final(self).int == old(self).int,
            final(self).hw == old(self).hw,
            final(self).page_pool == old(self).page_pool,
            final(self).pt_pages@.len() == old(self).pt_pages@.len(),
            final(self).pt_pages@[old(self).page_slot(a)]@.len() == 0,
            forall|k: int|
                0 <= k < old(self).pt_pages@.len() && k != old(self).page_slot(a)
                    ==> #[trigger] final(self).pt_pages@[k] == old(self).pt_pages@[k],
    {
        let n = self.pt_pages.len();
        let d: u64 = a - (self.page_pool.start as u64);
        let q: u64 = d / (PAGE_SIZE as u64);
        assert(q == old(self).page_slot(a));
        assert(q < n);
        let k = q as usize;
        let mut r: Vec<u64> = Vec::new();
        std::mem::swap(&mut r, &mut self.pt_pages[k]);
        r
    }

    /// Stores `t` as the contents of the page at `a`.
    pub fn put_page(&mut self, a: u64, t: Vec<u64>)
        requires
            old(self).holds_page(a),
        ensures
            final(self).int == old(self).int,
            final(self).hw == old(self).hw,
            final(self).page_pool == old(self).page_pool,
            final(self).pt_pages@ == old(self).pt_pages@.update(old(self).page_slot(a), t),
    {
        let n = self.pt_pages.len();
        let d: u64 = a - (self.page_pool.start as u64);
        let q: u64 = d / (PAGE_SIZE as u64);
        assert(q == old(self).page_slot(a));
        assert(q < n);
        let k = q as usize;
        self.pt_pages.set(k, t);
    }
}

} // verus!
