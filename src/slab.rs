//! Fixed-size slot allocators fed from caller-supplied chunks, and the owning
//! handle to one slot.
//!
//! Chunks are laid out one after another in a virtual address space: the first
//! chunk starts at address 0 and every later chunk starts where the previous
//! one ended. Free memory is kept as a stack of runs; a run is a contiguous
//! range of free bytes whose length is a multiple of the slot size.
use vstd::prelude::*;
use vstd::arithmetic::div_mod::{lemma_fundamental_div_mod, lemma_small_mod, lemma_mod_multiples_basic};

verus! {

/// A run of `size` free bytes starting at virtual address `addr`.
#[derive(Clone, Copy)]
struct SlabFreeList {
    addr: usize,
    size: usize,
}

/// Sum of the lengths of the given free runs.
spec fn runs_total(runs: Seq<SlabFreeList>) -> nat
    decreases runs.len(),
{
    if runs.len() == 0 {
        0
    } else {
        runs_total(runs.drop_last()) + runs.last().size as nat
    }
}

/// The given free runs as (address, length) pairs.
spec fn runs_view(runs: Seq<SlabFreeList>) -> Seq<(nat, nat)> {
    runs.map_values(|r: SlabFreeList| (r.addr as nat, r.size as nat))
}

/// `runs` without the runs shorter than `s` bytes at its end, the head of
/// the free list.
pub open spec fn skip_small(runs: Seq<(nat, nat)>, s: nat) -> Seq<(nat, nat)>
    decreases runs.len(),
{
    if runs.len() > 0 && runs.last().1 < s {
        skip_small(runs.drop_last(), s)
    } else {
        runs
    }
}

/// An allocator of fixed-size slots for values of type `T`.
pub struct SlabAllocator<T> {
    slot_size: usize,
    free_size: usize,
    /// Number of slots that all chunks given so far hold.
    slots: usize,
    /// Free runs; the head of the free list is the last element.
    free_list: Vec<SlabFreeList>,
    /// Number of bytes of all chunks handed to this allocator so far.
    extent: usize,
    free_slots: Ghost<nat>,
    in_use: Ghost<nat>,
    _phantom: core::marker::PhantomData<T>,
}

/// Whether `size_of::<T>()` is a slot size the allocator accepts: room for a
/// free-run header of 16 bytes, and a multiple of 8.
pub open spec fn valid_slot_size(s: nat) -> bool {
    16 <= s && s % 8 == 0
}

impl<T> SlabAllocator<T> {
    /// Size in bytes of one slot.
    pub closed spec fn slot_size(&self) -> nat {
        self.slot_size as nat
    }

    /// Number of slots that can still be handed out.
    pub closed spec fn free_slots(&self) -> nat {
        self.free_slots@
    }

    /// Number of slots handed out and not yet returned.
    pub closed spec fn in_use(&self) -> nat {
        self.in_use@
    }

    /// Number of slots that all chunks given so far hold in total.
    pub closed spec fn budget(&self) -> nat {
        self.slots as nat
    }

    /// The free runs as (address, length) pairs; the last one is the head
    /// of the free list, where slots are taken and given back.
    pub closed spec fn runs(&self) -> Seq<(nat, nat)> {
        runs_view(self.free_list@)
    }

    /// Number of bytes of all chunks given so far.
    pub closed spec fn total_bytes(&self) -> nat {
        self.extent as nat
    }

    /// Internal consistency of the free list and the counters.
    pub closed spec fn inv(&self) -> bool {
        &&& self.slot_size as nat == vstd::layout::size_of::<T>()
        &&& valid_slot_size(self.slot_size as nat)
        &&& self.free_size as nat == runs_total(self.free_list@)
        &&& self.free_size as nat == self.free_slots@ * self.slot_size
        &&& self.slots * self.slot_size <= self.extent
        &&& forall|i: int|
            0 <= i < self.free_list@.len() ==> {
                &&& #[trigger] self.free_list@[i].size % self.slot_size == 0
                &&& self.free_list@[i].size == self.slot_size || self.free_list@[i].addr
                    + self.free_list@[i].size <= usize::MAX
            }
    }

    /// The allocator is consistent, and every slot is either free or in use.
    pub open spec fn wf(&self) -> bool {
        &&& self.inv()
        &&& self.in_use() + self.free_slots() == self.budget()
    }

    /// The slot size of a consistent allocator is that of `T`, and valid.
    pub proof fn lemma_slot_size(&self)
        requires
            self.wf(),
        ensures
            self.slot_size() == vstd::layout::size_of::<T>(),
            valid_slot_size(self.slot_size()),
    {
    }

    /// The slots of all chunks fit the address space, 16 bytes or more each.
    pub proof fn lemma_budget_bound(&self)
        requires
            self.wf(),
        ensures
            self.budget() * 16 <= usize::MAX,
    {
        assert(self.slots * 16 <= self.slots * self.slot_size) by (nonlinear_arith)
            requires
                self.slot_size >= 16;
    }

    /// `next` is this allocator after one slot was handed out.
    pub open spec fn took_one(&self, next: &Self) -> bool {
        &&& next.wf()
        &&& next.slot_size() == self.slot_size()
        &&& next.budget() == self.budget()
        &&& next.total_bytes() == self.total_bytes()
        &&& next.free_slots() + 1 == self.free_slots()
        &&& next.in_use() == self.in_use() + 1
    }

    /// `next` is this allocator after one slot was given back.
    pub open spec fn gave_back_one(&self, next: &Self) -> bool {
        &&& next.wf()
        &&& next.took_one(self)
    }

    proof fn lemma_total_of_pushed(runs: Seq<SlabFreeList>, r: SlabFreeList)
        ensures
            runs_total(runs.push(r)) == runs_total(runs) + r.size,
    {
        assert(runs.push(r).drop_last() =~= runs);
    }

    /// Creates an allocator whose only chunk is `chunk`. The chunk's length is
    /// rounded down to a multiple of the slot size.
    pub fn new(chunk: &mut [u8]) -> (r: Self)
        requires
            valid_slot_size(vstd::layout::size_of::<T>()),
        ensures
            r.wf(),
            r.slot_size() == vstd::layout::size_of::<T>(),
            r.in_use() == 0,
            r.budget() == old(chunk)@.len() / r.slot_size(),
            r.free_slots() == r.budget(),
            r.total_bytes() == old(chunk)@.len(),
            r.runs() == seq![(0nat, (old(chunk)@.len() - old(chunk)@.len() % r.slot_size()) as nat)],
    {
        let slot_size = core::mem::size_of::<T>();
        let len = chunk.len();
        proof {
            assert(len % slot_size <= len) by (nonlinear_arith)
                requires
                    slot_size > 0;
        }
        let free_size = len - len % slot_size;
        proof {
            lemma_fundamental_div_mod(len as int, slot_size as int);
            lemma_mod_multiples_basic((len / slot_size) as int, slot_size as int);
        }
        let mut free_list: Vec<SlabFreeList> = Vec::new();
        free_list.push(SlabFreeList { addr: 0, size: free_size });
        let r = SlabAllocator {
            slot_size,
            free_size,
            free_list,
            extent: len,
            slots: len / slot_size,
            free_slots: Ghost((len / slot_size) as nat),
            in_use: Ghost(0),
            _phantom: core::marker::PhantomData,
        };
        proof {
            Self::lemma_total_of_pushed(Seq::empty(), SlabFreeList { addr: 0, size: free_size });
            assert(Seq::<SlabFreeList>::empty().push(SlabFreeList { addr: 0, size: free_size })
                =~= r.free_list@);
            assert(r.runs() =~= seq![(0nat, free_size as nat)]);
            assert(r.slots * r.slot_size == free_size) by (nonlinear_arith)
                requires
                    len == slot_size * (len / slot_size) + len % slot_size,
                    free_size == len - len % slot_size,
                    r.slots == len / slot_size,
                    r.slot_size == slot_size;
        }
        r
    }

    /// Adds `chunk` to the free memory, rounded down to a multiple of the slot
    /// size.
    pub fn add_chunk(&mut self, chunk: &mut [u8])
        requires
            old(self).wf(),
            old(self).total_bytes() + old(chunk)@.len() <= usize::MAX,
        ensures
            final(self).wf(),
            final(self).slot_size() == old(self).slot_size(),
            final(self).in_use() == old(self).in_use(),
            final(self).budget() == old(self).budget() + old(chunk)@.len() / old(self).slot_size(),
            final(self).free_slots() == old(self).free_slots() + old(chunk)@.len()
                / old(self).slot_size(),
            final(self).total_bytes() == old(self).total_bytes() + old(chunk)@.len(),
            final(self).runs() == old(self).runs().push(
                (old(self).total_bytes(), (old(chunk)@.len() - old(chunk)@.len() % old(self).slot_size()) as nat),
            ),
    {
        let len = chunk.len();
        proof {
            assert(len % self.slot_size <= len) by (nonlinear_arith)
                requires
                    self.slot_size > 0;
        }
        let alloc_size = len - len % self.slot_size;
        let ghost n = (len / self.slot_size) as nat;
        proof {
            lemma_fundamental_div_mod(len as int, self.slot_size as int);
            lemma_mod_multiples_basic(n as int, self.slot_size as int);
            assert(alloc_size == n * self.slot_size) by (nonlinear_arith)
                requires
                    len == self.slot_size * (len / self.slot_size) + len % self.slot_size,
                    alloc_size == len - len % self.slot_size,
                    n == len / self.slot_size;
            assert((self.free_slots@ + n) * self.slot_size == self.free_slots@ * self.slot_size
                + n * self.slot_size) by (nonlinear_arith);
            assert((self.slots + n) * self.slot_size == self.slots * self.slot_size + n
                * self.slot_size) by (nonlinear_arith);
            assert(self.free_slots@ * self.slot_size <= self.slots * self.slot_size)
                by (nonlinear_arith)
                requires
                    self.free_slots@ <= self.slots;
            assert(self.slots + n <= usize::MAX) by (nonlinear_arith)
                requires
                    (self.slots + n) * self.slot_size <= usize::MAX,
                    self.slot_size >= 16;
            Self::lemma_total_of_pushed(
                self.free_list@,
                SlabFreeList { addr: self.extent, size: alloc_size },
            );
        }
        let run = SlabFreeList { addr: self.extent, size: alloc_size };
        self.free_size = self.free_size + alloc_size;
        self.free_list.push(run);
        self.extent = self.extent + len;
        self.slots = self.slots + len / self.slot_size;
        self.free_slots = Ghost(self.free_slots@ + n);
        assert(self.runs() =~= old(self).runs().push((old(self).total_bytes(), alloc_size as nat)));
    }

    /// Returns true if fewer than 64 slots are free. To add memory call
    /// `add_chunk`.
    pub fn needs_new_chunk(&self) -> (r: bool)
        requires
            self.wf(),
        ensures
            r == (self.free_slots() < 64),
    {
        proof {
            assert(self.free_size < 64 * self.slot_size <==> self.free_slots@ < 64)
                by (nonlinear_arith)
                requires
                    self.free_size == self.free_slots@ * self.slot_size,
                    self.slot_size > 0;
        }
        match self.slot_size.checked_mul(64) {
            Some(m) => self.free_size < m,
            None => true,
        }
    }

    /// Number of free slots.
    pub fn free_slot_count(&self) -> (r: usize)
        requires
            self.wf(),
        ensures
            r == self.free_slots(),
    {
        proof {
            vstd::arithmetic::div_mod::lemma_div_multiples_vanish(
                self.free_slots@ as int,
                self.slot_size as int,
            );
        }
        self.free_size / self.slot_size
    }

    /// Number of slots handed out and not yet returned.
    pub fn slots_in_use(&self) -> (r: usize)
        requires
            self.wf(),
        ensures
            r == self.in_use(),
    {
        self.slots - self.free_slot_count()
    }

    /// Hands out the address of one free slot, or `None` when no slot is free.
    /// A run shorter than a slot at the head of the free list is dropped.
    pub fn malloc(&mut self) -> (r: Option<usize>)
        requires
            old(self).wf(),
        ensures
            final(self).wf(),
            final(self).slot_size() == old(self).slot_size(),
            final(self).budget() == old(self).budget(),
            final(self).total_bytes() == old(self).total_bytes(),
            r.is_some() == (old(self).free_slots() > 0),
            r.is_some() ==> {
                &&& final(self).free_slots() + 1 == old(self).free_slots()
                &&& final(self).in_use() == old(self).in_use() + 1
            },
            r.is_none() ==> final(self).free_slots() == old(self).free_slots(),
            r.is_none() ==> final(self).in_use() == old(self).in_use(),
            ({
                let rs = skip_small(old(self).runs(), old(self).slot_size());
                let s = old(self).slot_size();
                if rs.len() == 0 {
                    r is None && final(self).runs() == rs
                } else {
                    let h = rs.last();
                    &&& r == Some(h.0 as usize)
                    &&& h.1 > s ==> final(self).runs() == rs.drop_last().push((h.0 + s, (h.1 - s) as nat))
                    &&& h.1 == s ==> final(self).runs() == rs.drop_last()
                }
            }),
    {
        loop
            invariant
                skip_small(self.runs(), self.slot_size()) == skip_small(old(self).runs(), old(self).slot_size()),
                self.wf(),
                self.slot_size() == old(self).slot_size(),
                self.budget() == old(self).budget(),
                self.total_bytes() == old(self).total_bytes(),
                self.free_slots() == old(self).free_slots(),
                self.in_use() == old(self).in_use(),
            decreases self.free_list.len(),
        {
            if self.free_list.len() == 0 {
                proof {
                    assert(self.free_slots@ == 0) by (nonlinear_arith)
                        requires
                            0 == self.free_slots@ * self.slot_size,
                            self.slot_size > 0;
                }
                return None;
            }
            let last = self.free_list.len() - 1;
            let head = self.free_list[last];
            let ghost runs = self.free_list@;
            proof {
                assert(runs_view(runs).last() == (head.addr as nat, head.size as nat));
                assert(runs_view(runs.drop_last()) =~= runs_view(runs).drop_last());
                assert(runs.drop_last().len() == last);
                assert(head == runs[last as int]);
                assert(head.size % self.slot_size == 0);
            }
            if self.slot_size < head.size {
                let next = SlabFreeList { addr: head.addr + self.slot_size, size: head.size - self.slot_size };
                self.free_list[last] = next;
                proof {
                    assert(self.free_list@ =~= runs.drop_last().push(next));
                    assert(runs_view(self.free_list@) =~= runs_view(runs).drop_last().push(
                        ((head.addr + self.slot_size) as nat, (head.size - self.slot_size) as nat),
                    ));
                    assert(runs.drop_last().push(head) =~= runs);
                    Self::lemma_total_of_pushed(runs.drop_last(), next);
                    Self::lemma_total_of_pushed(runs.drop_last(), head);
                    vstd::arithmetic::div_mod::lemma_mod_sub_multiples_vanish(
                        head.size as int,
                        self.slot_size as int,
                    );
                    assert(self.free_slots@ >= 1) by (nonlinear_arith)
                        requires
                            self.free_size == self.free_slots@ * self.slot_size,
                            self.free_size >= head.size,
                            head.size > self.slot_size;
                    assert((self.free_slots@ - 1) * self.slot_size == self.free_slots@
                        * self.slot_size - self.slot_size) by (nonlinear_arith);
                }
                self.free_size = self.free_size - self.slot_size;
                self.free_slots = Ghost((self.free_slots@ - 1) as nat);
                self.in_use = Ghost(self.in_use@ + 1);
                return Some(head.addr);
            } else if self.slot_size == head.size {
                self.free_list.pop();
                proof {
                    assert(self.free_list@ =~= runs.drop_last());
                    assert(self.free_slots@ >= 1) by (nonlinear_arith)
                        requires
                            self.free_size == self.free_slots@ * self.slot_size,
                            self.free_size >= head.size,
                            head.size == self.slot_size,
                            self.slot_size > 0;
                    assert((self.free_slots@ - 1) * self.slot_size == self.free_slots@
                        * self.slot_size - self.slot_size) by (nonlinear_arith);
                }
                self.free_size = self.free_size - self.slot_size;
                self.free_slots = Ghost((self.free_slots@ - 1) as nat);
                self.in_use = Ghost(self.in_use@ + 1);
                return Some(head.addr);
            } else {
                proof {
                    lemma_small_mod(head.size as nat, self.slot_size as nat);
                }
                self.free_list.pop();
                proof {
                    assert(self.free_list@ =~= runs.drop_last());
                }
            }
        }
    }

    /// Returns the slot at `addr` to the head of the free list.
    pub fn free(&mut self, addr: usize)
        requires
            old(self).wf(),
            old(self).in_use() > 0,
        ensures
            final(self).wf(),
            final(self).slot_size() == old(self).slot_size(),
            final(self).budget() == old(self).budget(),
            final(self).total_bytes() == old(self).total_bytes(),
            final(self).free_slots() == old(self).free_slots() + 1,
            final(self).in_use() + 1 == old(self).in_use(),
            final(self).runs() == old(self).runs().push((addr as nat, old(self).slot_size())),
    {
        proof {
            assert((self.free_slots@ + 1) * self.slot_size == self.free_slots@ * self.slot_size
                + self.slot_size) by (nonlinear_arith);
            assert((self.free_slots@ + 1) * self.slot_size <= self.slots * self.slot_size)
                by (nonlinear_arith)
                requires
                    self.free_slots@ + 1 <= self.slots;
            vstd::arithmetic::div_mod::lemma_mod_self_0(self.slot_size as int);
            Self::lemma_total_of_pushed(
                self.free_list@,
                SlabFreeList { addr, size: self.slot_size },
            );
        }
        self.free_list.push(SlabFreeList { addr, size: self.slot_size });
        self.free_size = self.free_size + self.slot_size;
        self.free_slots = Ghost(self.free_slots@ + 1);
        self.in_use = Ghost((self.in_use@ - 1) as nat);
        assert(self.runs() =~= old(self).runs().push((addr as nat, old(self).slot_size())));
    }
}

/// Owner of one slot of a slab allocator and of the value stored in it. The
/// slot goes back to its allocator only through `free` or `free_move`.
pub struct SlabBox<T> {
    addr: usize,
    data: Box<T>,
}

impl<T> SlabBox<T> {
    /// The value held in the slot.
    pub closed spec fn value(&self) -> T {
        *self.data
    }

    /// Virtual address of the slot.
    pub closed spec fn addr(&self) -> nat {
        self.addr as nat
    }

    /// Takes a slot from `alloc` and moves `x` into it.
    pub fn new(alloc: &mut SlabAllocator<T>, x: T) -> (r: Self)
        requires
            old(alloc).wf(),
            old(alloc).free_slots() > 0,
        ensures
            old(alloc).took_one(final(alloc)),
            r.value() == x,
    {
        let addr = alloc.malloc().unwrap();
        SlabBox { addr, data: Box::new(x) }
    }

    /// Shared access to the value held in the slot.
    pub fn as_ref(&self) -> (r: &T)
        ensures
            *r == self.value(),
    {
        &self.data
    }

    /// Exclusive access to the value held in the slot.
    pub fn as_mut(&mut self) -> (r: &mut T)
        ensures
            *r == old(self).value(),
            final(self).value() == *final(r),
            final(self).addr() == old(self).addr(),
    {
        &mut self.data
    }

    /// Returns the slot to `alloc`, dropping the value held in it.
    pub fn free(self, alloc: &mut SlabAllocator<T>)
        requires
            old(alloc).wf(),
            old(alloc).in_use() > 0,
        ensures
            old(alloc).gave_back_one(final(alloc)),
    {
        alloc.free(self.addr);
    }

    /// Returns the slot to `alloc` and hands back the value held in it.
    pub fn free_move(self, alloc: &mut SlabAllocator<T>) -> (r: T)
        requires
            old(alloc).wf(),
            old(alloc).in_use() > 0,
        ensures
            old(alloc).gave_back_one(final(alloc)),
            r == self.value(),
    {
        alloc.free(self.addr);
        *self.data
    }

    /// Takes a new slot from `alloc` holding a clone of this slot's value.
    pub fn clone(&self, alloc: &mut SlabAllocator<T>) -> (r: Self)
        where
            T: Clone,
        requires
            old(alloc).wf(),
            old(alloc).free_slots() > 0,
        ensures
            old(alloc).took_one(final(alloc)),
            vstd::pervasive::cloned(self.value(), r.value()),
    {
        let x = self.as_ref().clone();
        Self::new(alloc, x)
    }
}

} // verus!
