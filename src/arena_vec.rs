use crate::align::{lemma_ceil_align_facts, lemma_pow2_positive, spec_ceil_align};
use crate::arena::{
    commit_between, initial_state, replay, Allocation, Arena, ArenaError, ArenaState, PAGES_PER_COMMIT,
};
use vstd::arithmetic::div_mod::{lemma_fundamental_div_mod, lemma_mod_multiples_basic};
use vstd::arithmetic::power2::is_pow2;
use vstd::layout::{align_of, align_properties, layout_for_type_is_valid, size_of};
use vstd::prelude::*;
use vstd::std_specs::iter::IteratorSpec;
use vstd::std_specs::slice::axiom_spec_slice_iter;

verus! {

/// An append-only sequence of `T` laid out back to back in an arena. Its
/// length is not stored: it is the number of elements the arena's bump
/// offset has moved past.
pub struct ArenaVec<T> {
    arena: Arena,
    items: Vec<T>,
}

impl<T> View for ArenaVec<T> {
    type V = Seq<T>;

    closed spec fn view(&self) -> Seq<T> {
        self.items@
    }
}

#[verifier::external_type_specification]
#[verifier::external_body]
#[verifier::reject_recursive_types(T)]
pub struct ExIterMut<'a, T: 'a>(core::slice::IterMut<'a, T>);

/// Relies on `Vec::as_mut_slice`: the slice holds the vector's elements and
/// writes through it land in the vector; like every slice, it keeps its length
/// while borrowed.
#[verifier::external_body]
fn vec_as_mut_slice<T>(v: &mut Vec<T>) -> (r: &mut [T])
    ensures
        r@ == old(v)@,
        final(v)@ == final(r)@,
        final(r)@.len() == r@.len(),
{
    v.as_mut_slice()
}

/// Relies on `<[T]>::iter_mut`: iterating hands out the slice's elements in
/// place, so the slice keeps its length.
#[verifier::external_body]
fn slice_iter_mut<T>(s: &mut [T]) -> (r: core::slice::IterMut<'_, T>)
    ensures
        final(s)@.len() == old(s)@.len(),
{
    s.iter_mut()
}

/// Elements placed back to back, each at a multiple of `size`, are also
/// aligned to `align` when `size` is a multiple of it.
proof fn lemma_packed_aligned(n: nat, size: nat, align: nat)
    requires
        align > 0,
        size % align == 0,
    ensures
        (n * size) % align == 0,
{
    let k = size / align;
    lemma_fundamental_div_mod(size as int, align as int);
    assert(n * size == (n * k) * align) by (nonlinear_arith)
        requires
            size == align * k,
    ;
    lemma_mod_multiples_basic((n * k) as int, align as int);
}

impl<T> ArenaVec<T> {
    /// The arena under the sequence.
    pub closed spec fn state(&self) -> ArenaState {
        self.arena@
    }

    pub closed spec fn wf(&self) -> bool {
        &&& self.arena@.wf()
        &&& size_of::<T>() > 0
        &&& self.arena@.bump == self.items@.len() * size_of::<T>()
    }

    /// Whether one more element fits in the arena.
    pub open spec fn has_room(&self) -> bool {
        (self@.len() + 1) * size_of::<T>() <= self.state().reserved
    }

    /// An empty sequence over an arena of `addr_space_size` bytes rounded up
    /// to whole pages of `page_size` bytes.
    pub fn new(addr_space_size: usize, page_size: usize) -> (r: Self)
        requires
            is_pow2(page_size as int),
            page_size * PAGES_PER_COMMIT <= usize::MAX,
            spec_ceil_align(addr_space_size as int, page_size as int) <= usize::MAX,
            size_of::<T>() > 0,
        ensures
            r.wf(),
            r@ == Seq::<T>::empty(),
            r.state() == initial_state(addr_space_size as nat, page_size as nat),
    {
        ArenaVec { arena: Arena::new(addr_space_size, page_size), items: Vec::new() }
    }

    /// Appends `value` in the next slot of the arena, and says where it went
    /// and which pages must be committed for it. Fails, changing nothing, when
    /// the arena is full.
    pub fn add(&mut self, value: T) -> (r: Result<Allocation, ArenaError>)
        requires
            old(self).wf(),
        ensures
            final(self).wf(),
            r is Ok <==> old(self).has_room(),
            r is Ok ==> final(self)@ == old(self)@.push(value) && r->Ok_0.offset == old(self)@.len()
                * size_of::<T>() && final(self).state() == old(self).state().after_alloc(
                size_of::<T>(),
                align_of::<T>(),
            ),
            r is Ok ==> r->Ok_0.commit == commit_between(old(self).state(), final(self).state()),
            r is Err ==> r == Err::<Allocation, ArenaError>(ArenaError::CapacityExceeded)
                && final(self)@ == old(self)@ && final(self).state() == old(self).state(),
    {
        layout_for_type_is_valid::<T>();
        broadcast use align_properties;

        let size = core::mem::size_of::<T>();
        let align = core::mem::align_of::<T>();
        proof {
            lemma_pow2_positive(align as int);
            lemma_packed_aligned(self.items@.len(), size as nat, align as nat);
            lemma_ceil_align_facts(self.arena@.bump as int, align as int);
            let n = self.items@.len();
            assert((n + 1) * size == n * size + size) by (nonlinear_arith);
        }
        let r = self.arena.alloc_region(size, align);
        if r.is_ok() {
            self.items.push(value);
        }
        r
    }

    /// The number of elements: the bytes allocated divided by the size of
    /// one element.
    pub fn len(&self) -> (r: usize)
        requires
            self.wf(),
        ensures
            r == self@.len(),
    {
        let size = core::mem::size_of::<T>();
        let bytes = self.arena.bump_offset();
        proof {
            let n = self.items@.len();
            assert((n * size as nat) / (size as nat) == n) by (nonlinear_arith)
                requires
                    size > 0,
            ;
        }
        bytes / size
    }

    pub fn is_empty(&self) -> (r: bool)
        requires
            self.wf(),
        ensures
            r == (self@.len() == 0),
    {
        self.len() == 0
    }

    /// The element at `idx`, or nothing when `idx` is past the end.
    pub fn get(&self, idx: usize) -> (r: Option<&T>)
        requires
            self.wf(),
        ensures
            idx < self@.len() ==> r == Some(&self@[idx as int]),
            idx >= self@.len() ==> r is None,
    {
        if idx >= self.len() {
            None
        } else {
            Some(&self.items[idx])
        }
    }

    /// The element at `idx` for writing, or nothing when `idx` is past the
    /// end.
    pub fn get_mut(&mut self, idx: usize) -> (r: Option<&mut T>)
        requires
            old(self).wf(),
        ensures
            final(self).wf(),
            final(self).state() == old(self).state(),
            idx < old(self)@.len() ==> r is Some && *r->Some_0 == old(self)@[idx as int]
                && final(self)@ == old(self)@.update(idx as int, *final(r->Some_0)),
            idx >= old(self)@.len() ==> r is None && final(self)@ == old(self)@,
    {
        if idx >= self.len() {
            None
        } else {
            Some(&mut self.items[idx])
        }
    }

    /// A view of all elements, in the order they were added.
    pub fn as_slice(&self) -> (r: &[T])
        requires
            self.wf(),
        ensures
            r@ == self@,
    {
        self.items.as_slice()
    }

    /// A view of all elements for writing in place.
    pub fn as_mut_slice(&mut self) -> (r: &mut [T])
        requires
            old(self).wf(),
        ensures
            final(self).wf(),
            final(self).state() == old(self).state(),
            r@ == old(self)@,
            final(self)@ == final(r)@,
    {
        vec_as_mut_slice(&mut self.items)
    }

    /// An iterator over the elements, in the order they were added.
    pub fn iter(&self) -> (r: core::slice::Iter<'_, T>)
        requires
            self.wf(),
        ensures
            r.remaining() == self@.as_ref(),
    {
        broadcast use axiom_spec_slice_iter;

        self.items.as_slice().iter()
    }

    /// An iterator over the elements for writing in place, in the order they
    /// were added.
    pub fn iter_mut(&mut self) -> (r: core::slice::IterMut<'_, T>)
        requires
            old(self).wf(),
        ensures
            final(self).wf(),
            final(self).state() == old(self).state(),
            final(self)@.len() == old(self)@.len(),
    {
        slice_iter_mut(vec_as_mut_slice(&mut self.items))
    }

    /// The arena the elements are laid out in.
    pub fn arena(&self) -> (r: &Arena)
        ensures
            r@ == self.state(),
    {
        &self.arena
    }

    /// Empties the sequence and resets its arena; gives back the range whose
    /// pages are to be uncommitted.
    pub fn clear(&mut self) -> (r: crate::arena::PageRange)
        requires
            old(self).wf(),
        ensures
            final(self).wf(),
            final(self)@ == Seq::<T>::empty(),
            final(self).state() == old(self).state().after_reset(),
            r.start == 0 && r.len == old(self).state().committed,
    {
        let r = self.arena.free_all();
        self.items.clear();
        r
    }
}

impl<T> core::ops::Index<usize> for ArenaVec<T> {
    type Output = T;

    /// The element at `index`, which must be below the length.
    fn index(&self, index: usize) -> (r: &T)
        ensures
            *r == self@[index as int],
    {
        &self.items[index]
    }
}

impl<T> vstd::std_specs::core::IndexSpecImpl<usize> for ArenaVec<T> {
    open spec fn index_req(&self, index: &usize) -> bool {
        self.wf() && *index < self@.len()
    }
}

/// The sequence reached from `start` by appending `values` one at a time, as
/// `add` does on success.
pub open spec fn appended<T>(start: Seq<T>, values: Seq<T>) -> Seq<T>
    decreases values.len(),
{
    if values.len() == 0 {
        start
    } else {
        appended(start, values.drop_last()).push(values.last())
    }
}

/// `n` allocations, each sized and aligned for one `T`.
pub open spec fn element_requests<T>(n: nat) -> Seq<(nat, nat)> {
    Seq::new(n, |i: int| (size_of::<T>(), align_of::<T>()))
}

proof fn lemma_element_bump<T>(s: ArenaState, n: nat)
    requires
        s.bump == 0,
    ensures
        replay(s, element_requests::<T>(n)).bump == n * size_of::<T>(),
    decreases n,
{
    broadcast use align_properties;

    if n == 0 {
        assert(n * size_of::<T>() == 0);
    } else {
        lemma_element_bump::<T>(s, (n - 1) as nat);
        assert(element_requests::<T>(n).drop_last() =~= element_requests::<T>((n - 1) as nat));
        assert(element_requests::<T>(n).last() == (size_of::<T>(), align_of::<T>()));
        let size = size_of::<T>();
        let align = align_of::<T>();
        lemma_pow2_positive(align as int);
        lemma_packed_aligned((n - 1) as nat, size, align);
        lemma_ceil_align_facts(((n - 1) * size) as int, align as int);
        assert((n - 1) * size + size == n * size) by (nonlinear_arith)
            requires
                n > 0,
        ;
    }
}

/// Appending `values` one by one to an empty sequence gives a sequence of
/// exactly those values, in order; the arena's bump offset then stands one
/// element size per value past the start, so the length derived from it is
/// the number of values.
pub proof fn lemma_appends_collect<T>(s: ArenaState, values: Seq<T>)
    requires
        s.bump == 0,
        size_of::<T>() > 0,
    ensures
        appended(Seq::<T>::empty(), values) == values,
        replay(s, element_requests::<T>(values.len())).bump == values.len() * size_of::<T>(),
        replay(s, element_requests::<T>(values.len())).bump / size_of::<T>() == values.len(),
    decreases values.len(),
{
    lemma_element_bump::<T>(s, values.len());
    let n = values.len();
    let size = size_of::<T>();
    assert((n * size) / size == n) by (nonlinear_arith)
        requires
            size > 0,
    ;
    if values.len() > 0 {
        lemma_appends_collect(s, values.drop_last());
        assert(values.drop_last().push(values.last()) =~= values);
    }
}

} // verus!
