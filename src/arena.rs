use crate::align::{
    ceil_align, lemma_ceil_align_facts, lemma_pow2_positive, spec_ceil_align,
};
use vstd::arithmetic::power2::is_pow2;
use vstd::prelude::*;

verus! {

/// How many pages are committed at once when an allocation runs past the
/// committed boundary.
pub const PAGES_PER_COMMIT: usize = 16;

pub const KIB: usize = 1024;

pub const MIB: usize = 1024 * 1024;

pub const GIB: usize = 1024 * 1024 * 1024;

/// An arena seen as numbers: offsets from the start of its reservation.
pub ghost struct ArenaState {
    /// The operating system's page size.
    pub page_size: nat,
    /// Bytes of address space reserved; a whole number of pages.
    pub reserved: nat,
    /// Bytes at the start of the reservation that are committed.
    pub committed: nat,
    /// Offset of the next free byte.
    pub bump: nat,
}

impl ArenaState {
    /// The batch size by which pages are committed.
    pub open spec fn granularity(self) -> nat {
        self.page_size * (PAGES_PER_COMMIT as nat)
    }

    /// The bump offset lies within the committed bytes, which lie within the
    /// reservation; the committed boundary is a whole number of commit
    /// batches unless it was clamped at the end of the reservation.
    pub open spec fn wf(self) -> bool {
        &&& is_pow2(self.page_size as int)
        &&& self.granularity() <= usize::MAX
        &&& self.reserved <= usize::MAX
        &&& self.reserved % self.page_size == 0
        &&& self.bump <= self.committed <= self.reserved
        &&& (self.committed % self.granularity() == 0 || self.committed == self.reserved)
    }

    /// Where an allocation aligned to `align` starts.
    pub open spec fn next_offset(self, align: nat) -> int {
        spec_ceil_align(self.bump as int, align as int)
    }

    /// Whether an allocation of `size` bytes aligned to `align` stays inside
    /// the reservation.
    pub open spec fn fits(self, size: nat, align: nat) -> bool {
        self.next_offset(align) + size <= self.reserved
    }

    /// The committed boundary once every byte below `end` is committed: the
    /// current one if it already covers `end`, else `end` rounded up to the
    /// commit granularity, but never past the reservation.
    pub open spec fn boundary_for(self, end: int) -> nat {
        if end <= self.committed {
            self.committed
        } else {
            let rounded = spec_ceil_align(end, self.granularity() as int);
            if rounded <= self.reserved {
                rounded as nat
            } else {
                self.reserved
            }
        }
    }

    /// The state after an allocation of `size` bytes aligned to `align`.
    pub open spec fn after_alloc(self, size: nat, align: nat) -> ArenaState {
        let end = self.next_offset(align) + size;
        ArenaState { committed: self.boundary_for(end), bump: end as nat, ..self }
    }

    /// The state after a reset: nothing committed, nothing allocated.
    pub open spec fn after_reset(self) -> ArenaState {
        ArenaState { committed: 0, bump: 0, ..self }
    }
}

/// The state of a new arena asked for `capacity` bytes.
pub open spec fn initial_state(capacity: nat, page_size: nat) -> ArenaState {
    ArenaState {
        page_size,
        reserved: spec_ceil_align(capacity as int, page_size as int) as nat,
        committed: 0,
        bump: 0,
    }
}

/// The pages to commit when the committed boundary moves from where it is in
/// `before` to where it is in `after`: none if it did not move.
pub open spec fn commit_between(before: ArenaState, after: ArenaState) -> Option<PageRange> {
    if after.committed > before.committed {
        Some(
            PageRange {
                start: before.committed as usize,
                len: (after.committed - before.committed) as usize,
            },
        )
    } else {
        None
    }
}

/// A range of bytes, as an offset from the start of the reservation and a
/// length.
#[derive(Clone, Copy, Debug, PartialEq, Eq, Structural)]
pub struct PageRange {
    pub start: usize,
    pub len: usize,
}

/// Where an allocation was placed, and the pages that must be committed
/// before it is used.
#[derive(Clone, Copy, Debug, PartialEq, Eq, Structural)]
pub struct Allocation {
    pub offset: usize,
    pub commit: Option<PageRange>,
}

#[derive(Clone, Copy, Debug, PartialEq, Eq, Structural)]
pub enum ArenaError {
    /// The allocation would run past the end of the reserved address space.
    CapacityExceeded,
}

/// The bookkeeping of a bump allocator over one reserved address range.
pub struct Arena {
    page_size: usize,
    reserved: usize,
    committed: usize,
    bump: usize,
}

impl View for Arena {
    type V = ArenaState;

    closed spec fn view(&self) -> ArenaState {
        ArenaState {
            page_size: self.page_size as nat,
            reserved: self.reserved as nat,
            committed: self.committed as nat,
            bump: self.bump as nat,
        }
    }
}

impl Arena {
    /// An arena of `addr_space_size` bytes rounded up to whole pages of
    /// `page_size` bytes, with nothing committed and nothing allocated.
    pub fn new(addr_space_size: usize, page_size: usize) -> (r: Arena)
        requires
            is_pow2(page_size as int),
            page_size * PAGES_PER_COMMIT <= usize::MAX,
            spec_ceil_align(addr_space_size as int, page_size as int) <= usize::MAX,
        ensures
            r@ == initial_state(addr_space_size as nat, page_size as nat),
            r@.wf(),
    {
        let reserved = ceil_align(addr_space_size, page_size);
        proof {
            lemma_pow2_positive(page_size as int);
            lemma_ceil_align_facts(addr_space_size as int, page_size as int);
        }
        Arena { page_size, reserved, committed: 0, bump: 0 }
    }

    /// Places `size` bytes at the next multiple of `align`, and says which
    /// pages must be committed first. Fails, changing nothing, when the bytes
    /// would run past the end of the reservation.
    pub fn alloc_region(&mut self, size: usize, align: usize) -> (r: Result<
        Allocation,
        ArenaError,
    >)
        requires
            old(self)@.wf(),
            is_pow2(align as int),
        ensures
            final(self)@.wf(),
            r is Ok <==> old(self)@.fits(size as nat, align as nat),
            r is Ok ==> r->Ok_0.offset == old(self)@.next_offset(align as nat) && final(self)@
                == old(self)@.after_alloc(size as nat, align as nat),
            r is Ok ==> r->Ok_0.commit == commit_between(old(self)@, final(self)@),
            r is Err ==> r == Err::<Allocation, ArenaError>(ArenaError::CapacityExceeded)
                && final(self)@ == old(self)@,
    {
        proof {
            lemma_pow2_positive(align as int);
            lemma_pow2_positive(self.page_size as int);
            lemma_ceil_align_facts(self.bump as int, align as int);
        }
        let rem: usize = self.bump % align;
        let pad: usize = if rem == 0 {
            0
        } else {
            align - rem
        };
        if pad > self.reserved - self.bump {
            return Err(ArenaError::CapacityExceeded);
        }
        let start: usize = self.bump + pad;
        if size > self.reserved - start {
            return Err(ArenaError::CapacityExceeded);
        }
        let end: usize = start + size;
        let mut commit: Option<PageRange> = None;
        if end > self.committed {
            let granularity: usize = self.page_size * PAGES_PER_COMMIT;
            proof {
                lemma_ceil_align_facts(end as int, granularity as int);
            }
            let over: usize = end % granularity;
            let boundary: usize = if over == 0 {
                end
            } else if granularity - over >= self.reserved - end {
                self.reserved
            } else {
                end + (granularity - over)
            };
            commit = Some(PageRange { start: self.committed, len: boundary - self.committed });
            self.committed = boundary;
        }
        self.bump = end;
        Ok(Allocation { offset: start, commit })
    }

    /// Places `count` elements of `elem_size` bytes each at the next
    /// multiple of `align`, as `alloc_region` does for their total size.
    pub fn alloc_array_region(&mut self, count: usize, elem_size: usize, align: usize) -> (r:
        Result<Allocation, ArenaError>)
        requires
            old(self)@.wf(),
            is_pow2(align as int),
        ensures
            final(self)@.wf(),
            r is Ok <==> old(self)@.fits(count as nat * elem_size as nat, align as nat),
            r is Ok ==> r->Ok_0.offset == old(self)@.next_offset(align as nat) && final(self)@
                == old(self)@.after_alloc(count as nat * elem_size as nat, align as nat),
            r is Ok ==> r->Ok_0.commit == commit_between(old(self)@, final(self)@),
            r is Err ==> r == Err::<Allocation, ArenaError>(ArenaError::CapacityExceeded)
                && final(self)@ == old(self)@,
    {
        match count.checked_mul(elem_size) {
            Some(size) => self.alloc_region(size, align),
            None => {
                proof {
                    lemma_pow2_positive(align as int);
                    lemma_ceil_align_facts(self.bump as int, align as int);
                }
                Err(ArenaError::CapacityExceeded)
            },
        }
    }

    /// Rewinds the arena to empty and gives back the committed range, whose
    /// pages are to be uncommitted.
    pub fn free_all(&mut self) -> (r: PageRange)
        requires
            old(self)@.wf(),
        ensures
            final(self)@ == old(self)@.after_reset(),
            final(self)@.wf(),
            r == (PageRange { start: 0, len: old(self)@.committed as usize }),
    {
        let r = PageRange { start: 0, len: self.committed };
        self.committed = 0;
        self.bump = 0;
        proof {
            lemma_pow2_positive(self.page_size as int);
        }
        r
    }
}

impl Arena {
    /// The operating system's page size the arena was made with.
    pub fn page_size(&self) -> (r: usize)
        ensures
            r == self@.page_size,
    {
        self.page_size
    }

    /// Bytes of address space the arena covers.
    pub fn reserved_size(&self) -> (r: usize)
        ensures
            r == self@.reserved,
    {
        self.reserved
    }

    /// Bytes at the start of the reservation that are committed.
    pub fn committed_boundary(&self) -> (r: usize)
        ensures
            r == self@.committed,
    {
        self.committed
    }

    /// Offset of the next free byte.
    pub fn bump_offset(&self) -> (r: usize)
        ensures
            r == self@.bump,
    {
        self.bump
    }
}

/// The state after the allocations `reqs`, each a size and an alignment, in
/// order.
pub open spec fn replay(s: ArenaState, reqs: Seq<(nat, nat)>) -> ArenaState
    decreases reqs.len(),
{
    if reqs.len() == 0 {
        s
    } else {
        replay(s, reqs.drop_last()).after_alloc(reqs.last().0, reqs.last().1)
    }
}

/// Where the `i`-th of the allocations `reqs` starts.
pub open spec fn placed(s: ArenaState, reqs: Seq<(nat, nat)>, i: int) -> int {
    replay(s, reqs.take(i)).next_offset(reqs[i].1)
}

/// Whether each of the allocations `reqs` fits when its turn comes.
pub open spec fn all_fit(s: ArenaState, reqs: Seq<(nat, nat)>) -> bool {
    forall|i: int| 0 <= i < reqs.len() ==> #[trigger] replay(s, reqs.take(i)).fits(reqs[i].0, reqs[i].1)
}

proof fn lemma_replay_step(s: ArenaState, reqs: Seq<(nat, nat)>, k: int)
    requires
        0 <= k < reqs.len(),
    ensures
        replay(s, reqs.take(k + 1)) == replay(s, reqs.take(k)).after_alloc(reqs[k].0, reqs[k].1),
{
    assert(reqs.take(k + 1).drop_last() =~= reqs.take(k));
}

/// Every allocation made before step `k` ends at or below the bump offset
/// after step `k`, which itself never moves back.
proof fn lemma_bump_covers(s: ArenaState, reqs: Seq<(nat, nat)>, k: int)
    requires
        0 <= k <= reqs.len(),
        forall|i: int| 0 <= i < reqs.len() ==> is_pow2(#[trigger] reqs[i].1 as int),
    ensures
        replay(s, reqs.take(k)).bump >= s.bump,
        forall|i: int|
            0 <= i < k ==> placed(s, reqs, i) + reqs[i].0 <= replay(s, reqs.take(k)).bump,
    decreases k,
{
    if k == 0 {
        assert(reqs.take(0) =~= Seq::<(nat, nat)>::empty());
    } else {
        lemma_bump_covers(s, reqs, k - 1);
        lemma_replay_step(s, reqs, k - 1);
        let prev = replay(s, reqs.take(k - 1));
        lemma_pow2_positive(reqs[k - 1].1 as int);
        lemma_ceil_align_facts(prev.bump as int, reqs[k - 1].1 as int);
    }
}

/// Allocations that all fit never overlap, each starts at a multiple of its
/// alignment, and none starts below the bump offset they began from.
pub proof fn lemma_allocations_disjoint(s: ArenaState, reqs: Seq<(nat, nat)>)
    requires
        forall|i: int| 0 <= i < reqs.len() ==> is_pow2(#[trigger] reqs[i].1 as int),
        all_fit(s, reqs),
    ensures
        forall|i: int, j: int|
            0 <= i < j < reqs.len() ==> placed(s, reqs, i) + reqs[i].0 <= #[trigger] placed(
                s,
                reqs,
                j,
            ) && #[trigger] placed(s, reqs, i) >= s.bump,
        forall|i: int|
            0 <= i < reqs.len() ==> #[trigger] placed(s, reqs, i) % (reqs[i].1 as int) == 0,
{
    assert forall|i: int, j: int| 0 <= i < j < reqs.len() implies placed(s, reqs, i) + reqs[i].0
        <= #[trigger] placed(s, reqs, j) && #[trigger] placed(s, reqs, i) >= s.bump by {
        lemma_bump_covers(s, reqs, j);
        lemma_bump_covers(s, reqs, i);
        let at_j = replay(s, reqs.take(j));
        let at_i = replay(s, reqs.take(i));
        lemma_pow2_positive(reqs[j].1 as int);
        lemma_ceil_align_facts(at_j.bump as int, reqs[j].1 as int);
        lemma_pow2_positive(reqs[i].1 as int);
        lemma_ceil_align_facts(at_i.bump as int, reqs[i].1 as int);
    }
    assert forall|i: int| 0 <= i < reqs.len() implies #[trigger] placed(s, reqs, i) % (
    reqs[i].1 as int) == 0 by {
        lemma_pow2_positive(reqs[i].1 as int);
        lemma_ceil_align_facts(replay(s, reqs.take(i)).bump as int, reqs[i].1 as int);
    }
}

/// A reset brings the arena back to the state it was created in, so the next
/// allocation starts where the very first one did: at offset zero.
pub proof fn lemma_reset_restarts(s: ArenaState, first_align: nat, next_align: nat)
    requires
        s.wf(),
        is_pow2(first_align as int),
        is_pow2(next_align as int),
    ensures
        s.after_reset() == initial_state(s.reserved, s.page_size),
        s.after_reset().next_offset(next_align) == initial_state(
            s.reserved,
            s.page_size,
        ).next_offset(first_align),
        s.after_reset().next_offset(next_align) == 0,
{
    lemma_pow2_positive(s.page_size as int);
    lemma_pow2_positive(first_align as int);
    lemma_pow2_positive(next_align as int);
    lemma_ceil_align_facts(s.reserved as int, s.page_size as int);
    lemma_ceil_align_facts(0, first_align as int);
    lemma_ceil_align_facts(0, next_align as int);
}

/// An allocation that fits keeps the arena well formed and never lowers the
/// committed boundary; when the reservation is a whole number of commit
/// batches, the boundary stays a multiple of the commit granularity.
pub proof fn lemma_committed_monotone(s: ArenaState, size: nat, align: nat)
    requires
        s.wf(),
        is_pow2(align as int),
        s.fits(size, align),
    ensures
        s.after_alloc(size, align).wf(),
        s.after_alloc(size, align).committed >= s.committed,
        s.reserved % s.granularity() == 0 ==> s.after_alloc(size, align).committed % s.granularity()
            == 0,
{
    lemma_pow2_positive(s.page_size as int);
    lemma_pow2_positive(align as int);
    lemma_ceil_align_facts(s.bump as int, align as int);
    let end = s.next_offset(align) + size;
    lemma_ceil_align_facts(end, s.granularity() as int);
}

} // verus!
