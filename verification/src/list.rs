//! The list itself: arena slots, generation-tagged handles, and the
//! operations on them.

use vstd::prelude::*;

verus! {

/// In a sequence without duplicates, `index_of` recovers the position of
/// each element.
proof fn lemma_index_of_distinct(s: Seq<usize>, i: int)
    requires
        s.no_duplicates(),
        0 <= i < s.len(),
    ensures
        s.index_of(s[i]) == i,
{
    assert(s.contains(s[i]));
    let j = s.index_of(s[i]);
    assert(0 <= j < s.len() && s[j] == s[i]);
}

/// Why a list operation could not be carried out.
///
/// `Empty` stands for the absent-value outcome of the pop operations
/// (surfaced there as `None`); `InvalidHandle` is returned by the
/// handle-based operations when the handle no longer refers to a node
/// that this list currently owns.
#[derive(Clone, Copy, Debug, PartialEq, Eq)]
pub enum ListError {
    Empty,
    InvalidHandle,
}

/// An opaque reference to one node of a list.
///
/// A handle pairs the node's slot index with the generation the slot had
/// when the node was created; once the node is removed the slot's
/// generation moves on, so the handle stops matching and is rejected as
/// `InvalidHandle` rather than reaching reused storage.
#[derive(Clone, Copy, Debug, PartialEq, Eq)]
pub struct Handle {
    index: usize,
    generation: u64,
}

/// One arena slot. `value` is `Some` exactly while a node lives here;
/// `prev` and `next` are slot indices of the neighbouring nodes.
struct Slot<T> {
    value: Option<T>,
    prev: Option<usize>,
    next: Option<usize>,
    generation: u64,
}

/// A doubly linked list.
///
/// All node storage lives in the `slots` arena, owned by the list alone;
/// `prev`/`next` links are indices into that arena, never owning
/// pointers, so teardown is a plain vector drop and cannot recurse.
/// Abstractly the list is the sequence of its values (`self@`), the
/// ghost `order` recording which slot holds each position.
pub struct LinkedList<T> {
    slots: Vec<Slot<T>>,
    free: Vec<usize>,
    head: Option<usize>,
    tail: Option<usize>,
    length: usize,
    order: Ghost<Seq<usize>>,
}

impl<T> View for LinkedList<T> {
    type V = Seq<T>;

    /// The values of the list, in head-to-tail order.
    closed spec fn view(&self) -> Seq<T> {
        self.order@.map(|_i: int, k: usize| self.slots@[k as int].value.unwrap())
    }
}

impl<T> LinkedList<T> {
    /// The free list holds each vacant slot exactly once, and nothing else.
    spec fn free_wf(self) -> bool {
        let f = self.free@;
        &&& forall|i: int| 0 <= i < f.len() ==> (#[trigger] f[i]) < self.slots@.len()
        &&& forall|i: int|
            0 <= i < f.len() ==> self.slots@[#[trigger] f[i] as int].value is None
        &&& f.no_duplicates()
        &&& forall|k: usize|
            k < self.slots@.len() && (#[trigger] self.slots@[k as int].value) is None
                ==> f.contains(k)
    }

    /// Structural well-formedness: `order` lists distinct occupied slots,
    /// the `prev`/`next` links trace it exactly, `head`/`tail` are its
    /// ends, `length` is its length, and every occupied slot appears in it.
    pub closed spec fn wf(self) -> bool {
        let s = self.order@;
        let n = s.len() as int;
        &&& self.length == n
        &&& forall|i: int| 0 <= i < n ==> (#[trigger] s[i]) < self.slots@.len()
        &&& s.no_duplicates()
        &&& forall|i: int|
            0 <= i < n ==> (#[trigger] self.slots@[s[i] as int].value) is Some
        &&& forall|i: int|
            0 <= i < n ==> #[trigger] self.slots@[s[i] as int].prev
                == (if i == 0 { None::<usize> } else { Some(s[i - 1]) })
        &&& forall|i: int|
            0 <= i < n ==> #[trigger] self.slots@[s[i] as int].next
                == (if i == n - 1 { None::<usize> } else { Some(s[i + 1]) })
        &&& self.head == (if n == 0 { None::<usize> } else { Some(s[0]) })
        &&& self.tail == (if n == 0 { None::<usize> } else { Some(s[n - 1]) })
        &&& forall|k: usize|
            k < self.slots@.len() && (#[trigger] self.slots@[k as int].value) is Some
                ==> s.contains(k)
        &&& self.free_wf()
    }

    /// Whether `h` refers to a node currently owned by this list.
    pub closed spec fn valid_handle(self, h: Handle) -> bool {
        &&& (h.index as int) < self.slots@.len()
        &&& self.slots@[h.index as int].value is Some
        &&& self.slots@[h.index as int].generation == h.generation
    }

    /// The position (0-based, from the head) of the node `h` refers to.
    /// Meaningful only when `valid_handle(h)` holds.
    pub closed spec fn handle_pos(self, h: Handle) -> int {
        self.order@.index_of(h.index)
    }

    /// A valid handle refers to one of the list's positions.
    pub proof fn lemma_handle_pos_in_range(&self, h: Handle)
        requires
            self.wf(),
            self.valid_handle(h),
        ensures
            0 <= self.handle_pos(h) < self@.len(),
    {
        assert(self.order@.contains(h.index));
        let q = self.order@.index_of(h.index);
        assert(0 <= q < self.order@.len() && self.order@[q] == h.index);
    }

    /// Puts `value` into a vacant slot (reusing a freed one if any),
    /// leaving every other slot and all list fields untouched.
    fn alloc_slot(&mut self, value: T, prev: Option<usize>, next: Option<usize>) -> (h: Handle)
        requires
            old(self).free_wf(),
        ensures
            final(self).free_wf(),
            final(self).head == old(self).head,
            final(self).tail == old(self).tail,
            final(self).length == old(self).length,
            final(self).order == old(self).order,
            old(self).slots@.len() <= final(self).slots@.len(),
            (h.index as int) < final(self).slots@.len(),
            (h.index as int) < old(self).slots@.len()
                ==> old(self).slots@[h.index as int].value is None,
            forall|j: int|
                0 <= j < final(self).slots@.len() && j != h.index
                    ==> j < old(self).slots@.len()
                        && #[trigger] final(self).slots@[j] == old(self).slots@[j],
            final(self).slots@[h.index as int].value == Some(value),
            final(self).slots@[h.index as int].prev == prev,
            final(self).slots@[h.index as int].next == next,
            final(self).slots@[h.index as int].generation == h.generation,
    {
        let popped = self.free.pop();
        match popped {
            Some(kf) => {
                let g = self.slots[kf].generation;
                self.slots[kf] = Slot { value: Some(value), prev, next, generation: g };
                proof {
                    let f = old(self).free@;
                    let f2 = self.free@;
                    assert(f2 =~= f.subrange(0, f.len() - 1));
                    assert(f[f.len() - 1] == kf);
                    assert forall|k: usize|
                        k < self.slots@.len() && (#[trigger] self.slots@[k as int].value) is None
                            implies f2.contains(k) by {
                        assert(self.slots@[kf as int].value is Some);
                        assert(k != kf);
                        assert(old(self).slots@[k as int].value is None);
                        assert(f.contains(k));
                        let q = choose|q: int| 0 <= q < f.len() && f[q] == k;
                        assert(f[q] == k);
                        assert(q != f.len() - 1);
                        assert(f2[q] == k);
                    }
                }
                Handle { index: kf, generation: g }
            },
            None => {
                let kn = self.slots.len();
                self.slots.push(Slot { value: Some(value), prev, next, generation: 0 });
                Handle { index: kn, generation: 0 }
            },
        }
    }

    /// Splices `value` in as a new node between the neighbouring slots
    /// `prv` and `nxt`, which must sit at positions `p - 1` and `p`; the
    /// new node then occupies position `p`.
    #[verifier::rlimit(50)]
    fn link_at(
        &mut self,
        value: T,
        prv: Option<usize>,
        nxt: Option<usize>,
        Ghost(p): Ghost<int>,
    ) -> (h: Handle)
        requires
            old(self).wf(),
            old(self)@.len() < usize::MAX,
            0 <= p <= old(self)@.len(),
            prv == (if p == 0 { None::<usize> } else { Some(old(self).order@[p - 1]) }),
            nxt == (if p == old(self)@.len() {
                None::<usize>
            } else {
                Some(old(self).order@[p])
            }),
        ensures
            final(self).wf(),
            final(self)@ == old(self)@.insert(p, value),
            final(self).valid_handle(h),
            final(self).handle_pos(h) == p,
            !old(self).valid_handle(h),
            forall|h2: Handle|
                old(self).valid_handle(h2) ==> #[trigger] final(self).valid_handle(h2),
            forall|h2: Handle|
                final(self).valid_handle(h2) ==> old(self).valid_handle(h2) || h2 == h,
            forall|h2: Handle|
                old(self).valid_handle(h2)
                    ==> #[trigger] final(self).handle_pos(h2) == old(self).handle_pos(h2)
                        + (if old(self).handle_pos(h2) < p { 0int } else { 1int }),
    {
        let ghost s = old(self).order@;
        let ghost n = s.len() as int;
        let nh = self.alloc_slot(value, prv, nxt);
        let k = nh.index;
        let ghost mid = *self;
        let ghost ap: int = if p == 0 { -1 } else { s[p - 1] as int };
        let ghost bp: int = if p == n { -1 } else { s[p] as int };
        proof {
            assert(!s.contains(k)) by {
                if s.contains(k) {
                    let q = choose|q: int| 0 <= q < s.len() && s[q] == k;
                    assert(old(self).slots@[k as int].value is Some);
                }
            }
            assert(ap >= 0 ==> s.contains(s[p - 1]) && ap != k as int);
            assert(bp >= 0 ==> s.contains(s[p]) && bp != k as int);
            assert(ap >= 0 && bp >= 0 ==> ap != bp);
        }
        match prv {
            None => {
                self.head = Some(k);
            },
            Some(a) => {
                proof {
                    assert(s[p - 1] == a && a as int == ap);
                }
                self.slots[a].next = Some(k);
            },
        }
        match nxt {
            None => {
                self.tail = Some(k);
            },
            Some(b) => {
                proof {
                    assert(s[p] == b && b as int == bp);
                }
                self.slots[b].prev = Some(k);
            },
        }
        self.length = self.length + 1;
        proof {
            self.order@ = s.insert(p, k);
        }
        proof {
            let s2 = self.order@;
            // How the arena now relates to the arena before the call.
            assert(self.slots@.len() == mid.slots@.len());
            assert forall|j: int|
                0 <= j < self.slots@.len() && j != k && j != ap && j != bp
                    implies #[trigger] self.slots@[j] == old(self).slots@[j]
                    && j < old(self).slots@.len() by {
                assert(self.slots@[j] == mid.slots@[j]);
            }
            assert forall|j: int| 0 <= j < self.slots@.len() implies #[trigger] self.slots@[j].value
                == mid.slots@[j].value && self.slots@[j].generation == mid.slots@[j].generation by {}
            assert(self.slots@[k as int].value == Some(value));
            assert(self.slots@[k as int].prev == prv);
            assert(self.slots@[k as int].next == nxt);
            assert(self.slots@[k as int].generation == nh.generation);
            assert(ap >= 0 ==> self.slots@[ap].next == Some(k)
                && self.slots@[ap].prev == old(self).slots@[ap].prev);
            assert(bp >= 0 ==> self.slots@[bp].prev == Some(k)
                && self.slots@[bp].next == old(self).slots@[bp].next);
            s.insert_ensures(p, k);
            assert(s2.no_duplicates()) by {
                assert forall|i: int, j: int|
                    0 <= i < s2.len() && 0 <= j < s2.len() && i != j implies s2[i] != s2[j] by {
                    if i != p && j != p {
                        let i0: int = if i < p { i } else { i - 1 };
                        let j0: int = if j < p { j } else { j - 1 };
                        assert(s2[i] == s[i0] && s2[j] == s[j0]);
                    } else if i == p {
                        let j0: int = if j < p { j } else { j - 1 };
                        assert(s2[j] == s[j0] && s.contains(s[j0]));
                    } else {
                        let i0: int = if i < p { i } else { i - 1 };
                        assert(s2[i] == s[i0] && s.contains(s[i0]));
                    }
                }
            }
            assert forall|i: int|
                0 <= i < s2.len() implies #[trigger] self.slots@[s2[i] as int].prev
                == (if i == 0 { None::<usize> } else { Some(s2[i - 1]) })
                && self.slots@[s2[i] as int].next
                == (if i == s2.len() - 1 { None::<usize> } else { Some(s2[i + 1]) })
                && self.slots@[s2[i] as int].value is Some
                && s2[i] < self.slots@.len() by {
                if i < p - 1 || i > p + 1 {
                    let i0: int = if i < p { i } else { i - 1 };
                    assert(s2[i] == s[i0]);
                    assert(s[i0] != k);
                    assert(ap >= 0 ==> s[i0] as int != ap);
                    assert(bp >= 0 ==> s[i0] as int != bp);
                    assert(self.slots@[s[i0] as int] == old(self).slots@[s[i0] as int]);
                } else if i == p - 1 {
                    assert(s2[i] == s[p - 1] && s[p - 1] as int == ap);
                    assert(self.slots@[ap].next == Some(k) && s2[p] == k);
                    assert(self.slots@[ap].prev == old(self).slots@[ap].prev);
                } else if i == p + 1 {
                    assert(s2[i] == s[p] && s[p] as int == bp);
                    assert(self.slots@[bp].prev == Some(k) && s2[p] == k);
                    assert(self.slots@[bp].next == old(self).slots@[bp].next);
                }
            }
            assert forall|kk: usize|
                kk < self.slots@.len() && (#[trigger] self.slots@[kk as int].value) is Some
                    implies s2.contains(kk) by {
                if kk == k {
                    assert(s2[p] == k);
                } else {
                    assert(self.slots@[kk as int].value == mid.slots@[kk as int].value);
                    assert(mid.slots@[kk as int] == old(self).slots@[kk as int]);
                    assert(s.contains(kk));
                    let q = choose|q: int| 0 <= q < s.len() && s[q] == kk;
                    if q < p {
                        assert(s2[q] == s[q]);
                    } else {
                        assert(s2[q + 1] == s[q]);
                    }
                }
            }
            assert(mid.free_wf());
            assert(self.free@ == mid.free@);
            assert forall|i: int|
                0 <= i < self.free@.len() implies self.slots@[#[trigger] self.free@[i] as int].value is None
                    && self.free@[i] < self.slots@.len() by {
                assert(mid.slots@[mid.free@[i] as int].value is None);
                assert(mid.free@[i] < mid.slots@.len());
            }
            assert forall|kk: usize|
                kk < self.slots@.len() && (#[trigger] self.slots@[kk as int].value) is None
                    implies self.free@.contains(kk) by {
                assert(mid.slots@[kk as int].value is None);
            }
            assert(self.wf());
            assert(self@ =~= old(self)@.insert(p, value)) by {
                old(self)@.insert_ensures(p, value);
                assert forall|i: int| 0 <= i < s2.len() implies self@[i] == old(self)@.insert(
                    p,
                    value,
                )[i] by {
                    if i != p {
                        let i0: int = if i < p { i } else { i - 1 };
                        assert(s2[i] == s[i0] && s[i0] != k);
                        assert(self.slots@[s2[i] as int].value == mid.slots@[s2[i] as int].value);
                        assert(mid.slots@[s[i0] as int] == old(self).slots@[s[i0] as int]);
                    }
                }
            }
            assert(self.handle_pos(nh) == p) by {
                assert(s2[p] == k);
                lemma_index_of_distinct(s2, p);
            }
            assert(!old(self).valid_handle(nh));
            assert forall|h2: Handle| old(self).valid_handle(h2) implies #[trigger] self
                .valid_handle(h2) by {
                let idx = h2.index;
                assert(old(self).slots@[idx as int].value is Some);
                assert(idx != k);
                assert(mid.slots@[idx as int] == old(self).slots@[idx as int]);
                assert(self.slots@[idx as int].value == mid.slots@[idx as int].value);
                assert(self.slots@[idx as int].generation == mid.slots@[idx as int].generation);
            }
            assert forall|h2: Handle| old(self).valid_handle(h2) implies #[trigger] self
                .handle_pos(h2) == old(self).handle_pos(h2) + (
            if old(self).handle_pos(h2) < p {
                0int
            } else {
                1int
            }) by {
                let idx = h2.index;
                assert(old(self).slots@[idx as int].value is Some);
                assert(idx != k);
                assert(s.contains(idx));
                let q = s.index_of(idx);
                assert(0 <= q < s.len() && s[q] == idx);
                lemma_index_of_distinct(s, q);
                if q < p {
                    assert(s2[q] == idx);
                    lemma_index_of_distinct(s2, q);
                } else {
                    assert(s2[q + 1] == idx);
                    lemma_index_of_distinct(s2, q + 1);
                }
            }
            assert forall|h2: Handle| self.valid_handle(h2) implies old(self).valid_handle(h2)
                || h2 == nh by {
                let idx = h2.index;
                if idx == k {
                    assert(h2.generation == nh.generation && h2.index == nh.index);
                    assert(h2 == nh);
                } else {
                    assert(self.slots@[idx as int].value == mid.slots@[idx as int].value);
                    assert(self.slots@[idx as int].generation == mid.slots@[idx as int].generation);
                    assert(mid.slots@[idx as int] == old(self).slots@[idx as int]);
                }
            }
        }
        nh
    }

    /// Prepends `value` as the new head node and returns a handle to it.
    ///
    /// Every handle that was valid before stays valid, one position
    /// further from the head; no stale handle becomes valid.
    pub fn push_front(&mut self, value: T) -> (h: Handle)
        requires
            old(self).wf(),
            old(self)@.len() < usize::MAX,
        ensures
            final(self).wf(),
            final(self)@ == seq![value] + old(self)@,
            final(self).valid_handle(h),
            final(self).handle_pos(h) == 0,
            !old(self).valid_handle(h),
            forall|h2: Handle|
                old(self).valid_handle(h2) ==> #[trigger] final(self).valid_handle(h2),
            forall|h2: Handle|
                final(self).valid_handle(h2) ==> old(self).valid_handle(h2) || h2 == h,
            forall|h2: Handle|
                old(self).valid_handle(h2) ==> #[trigger] final(self).handle_pos(h2)
                    == old(self).handle_pos(h2) + 1,
    {
        let nxt = self.head;
        let h = self.link_at(value, None, nxt, Ghost(0));
        proof {
            assert(final(self)@ =~= seq![value] + old(self)@);
        }
        h
    }

    /// Appends `value` as the new tail node and returns a handle to it.
    ///
    /// Every handle that was valid before stays valid, at its old
    /// position; no stale handle becomes valid.
    pub fn push_back(&mut self, value: T) -> (h: Handle)
        requires
            old(self).wf(),
            old(self)@.len() < usize::MAX,
        ensures
            final(self).wf(),
            final(self)@ == old(self)@.push(value),
            final(self).valid_handle(h),
            final(self).handle_pos(h) == old(self)@.len(),
            !old(self).valid_handle(h),
            forall|h2: Handle|
                old(self).valid_handle(h2) ==> #[trigger] final(self).valid_handle(h2),
            forall|h2: Handle|
                final(self).valid_handle(h2) ==> old(self).valid_handle(h2) || h2 == h,
            forall|h2: Handle|
                old(self).valid_handle(h2) ==> #[trigger] final(self).handle_pos(h2)
                    == old(self).handle_pos(h2),
    {
        let prv = self.tail;
        let ghost n = self@.len() as int;
        let h = self.link_at(value, prv, None, Ghost(n));
        proof {
            assert(final(self)@ =~= old(self)@.push(value));
            assert forall|h2: Handle| old(self).valid_handle(h2) implies #[trigger] self
                .handle_pos(h2) == old(self).handle_pos(h2) by {
                old(self).lemma_handle_pos_in_range(h2);
            }
        }
        h
    }

    /// Creates an empty list.
    pub fn new() -> (l: LinkedList<T>)
        ensures
            l.wf(),
            l@ == Seq::<T>::empty(),
    {
        LinkedList {
            slots: Vec::new(),
            free: Vec::new(),
            head: None,
            tail: None,
            length: 0,
            order: Ghost(Seq::empty()),
        }
    }

    /// Whether `h` currently refers to a live node of this list.
    pub fn is_valid_handle(&self, h: Handle) -> (b: bool)
        ensures
            b == self.valid_handle(h),
    {
        h.index < self.slots.len() && self.slots[h.index].value.is_some()
            && self.slots[h.index].generation == h.generation
    }

    /// Detaches the node `h` refers to, relinks its neighbours, and
    /// returns its value; a stale or foreign handle is rejected as
    /// `InvalidHandle` and the list is left untouched.
    ///
    /// Afterwards `h` itself is invalid; every other valid handle stays
    /// valid, with its position shifted down past the removed node.
    #[verifier::rlimit(50)]
    pub fn remove(&mut self, h: Handle) -> (r: Result<T, ListError>)
        requires
            old(self).wf(),
        ensures
            final(self).wf(),
            old(self).valid_handle(h) ==> r == Ok::<T, ListError>(
                old(self)@[old(self).handle_pos(h)],
            ) && final(self)@ == old(self)@.remove(old(self).handle_pos(h)),
            !old(self).valid_handle(h) ==> r == Err::<T, ListError>(ListError::InvalidHandle)
                && *final(self) == *old(self),
            !final(self).valid_handle(h),
            forall|h2: Handle|
                #[trigger] final(self).valid_handle(h2) <==> old(self).valid_handle(h2) && h2
                    != h,
            forall|h2: Handle|
                old(self).valid_handle(h) && old(self).valid_handle(h2) && h2 != h
                    ==> #[trigger] final(self).handle_pos(h2) == old(self).handle_pos(h2) - (
                if old(self).handle_pos(h2) < old(self).handle_pos(h) {
                    0int
                } else {
                    1int
                }),
    {
        if !self.is_valid_handle(h) {
            return Err(ListError::InvalidHandle);
        }
        let i = h.index;
        let ghost s = old(self).order@;
        let ghost n = s.len() as int;
        let ghost p = old(self).handle_pos(h);
        proof {
            old(self).lemma_handle_pos_in_range(h);
            assert(s.contains(i));
            assert(0 <= p < n && s[p] == i);
            lemma_index_of_distinct(s, p);
        }
        let prv = self.slots[i].prev;
        let nxt = self.slots[i].next;
        let taken = self.slots[i].value.take();
        let g = self.slots[i].generation;
        self.slots[i].generation = if g == u64::MAX {
            0
        } else {
            g + 1
        };
        self.free.push(i);
        let ghost ap: int = if p == 0 {
            -1
        } else {
            s[p - 1] as int
        };
        let ghost bp: int = if p == n - 1 {
            -1
        } else {
            s[p + 1] as int
        };
        proof {
            assert(prv == (if p == 0 { None::<usize> } else { Some(s[p - 1]) }));
            assert(nxt == (if p == n - 1 { None::<usize> } else { Some(s[p + 1]) }));
            assert(ap >= 0 ==> ap != i as int && 0 <= ap < old(self).slots@.len());
            assert(bp >= 0 ==> bp != i as int && 0 <= bp < old(self).slots@.len());
            assert(ap >= 0 && bp >= 0 ==> ap != bp);
        }
        let ghost mid = *self;
        match prv {
            None => {
                self.head = nxt;
            },
            Some(a) => {
                self.slots[a].next = nxt;
            },
        }
        match nxt {
            None => {
                self.tail = prv;
            },
            Some(b) => {
                self.slots[b].prev = prv;
            },
        }
        self.length = self.length - 1;
        proof {
            self.order@ = s.remove(p);
        }
        proof {
            let s2 = self.order@;
            s.remove_ensures(p);
            assert(s2.len() == n - 1);
            // How the arena now relates to the arena before the call.
            assert(self.slots@.len() == old(self).slots@.len());
            assert forall|j: int|
                0 <= j < self.slots@.len() && j != i && j != ap && j != bp
                    implies #[trigger] self.slots@[j] == old(self).slots@[j] by {
                assert(self.slots@[j] == mid.slots@[j]);
            }
            assert forall|j: int| 0 <= j < self.slots@.len() implies #[trigger] self.slots@[j].value
                == mid.slots@[j].value && self.slots@[j].generation == mid.slots@[j].generation by {}
            assert(self.slots@[i as int].value is None);
            assert(ap >= 0 ==> self.slots@[ap].next == nxt
                && self.slots@[ap].prev == old(self).slots@[ap].prev
                && self.slots@[ap].value == old(self).slots@[ap].value
                && self.slots@[ap].generation == old(self).slots@[ap].generation);
            assert(bp >= 0 ==> self.slots@[bp].prev == prv
                && self.slots@[bp].next == old(self).slots@[bp].next
                && self.slots@[bp].value == old(self).slots@[bp].value
                && self.slots@[bp].generation == old(self).slots@[bp].generation);
            assert(s2.no_duplicates()) by {
                assert forall|x: int, y: int|
                    0 <= x < s2.len() && 0 <= y < s2.len() && x != y implies s2[x] != s2[y] by {
                    let x0: int = if x < p { x } else { x + 1 };
                    let y0: int = if y < p { y } else { y + 1 };
                    assert(s2[x] == s[x0] && s2[y] == s[y0]);
                }
            }
            assert forall|i2: int|
                0 <= i2 < s2.len() implies #[trigger] self.slots@[s2[i2] as int].prev
                == (if i2 == 0 { None::<usize> } else { Some(s2[i2 - 1]) })
                && self.slots@[s2[i2] as int].next
                == (if i2 == s2.len() - 1 { None::<usize> } else { Some(s2[i2 + 1]) })
                && self.slots@[s2[i2] as int].value is Some
                && s2[i2] < self.slots@.len() by {
                if i2 < p - 1 {
                    assert(s2[i2] == s[i2]);
                    assert(s[i2] != i && s[i2] as int != ap && (bp >= 0 ==> s[i2] as int != bp));
                    assert(self.slots@[s[i2] as int] == old(self).slots@[s[i2] as int]);
                } else if i2 == p - 1 {
                    assert(s2[i2] == s[p - 1] && s[p - 1] as int == ap);
                } else if i2 == p {
                    assert(s2[i2] == s[p + 1] && s[p + 1] as int == bp);
                } else {
                    assert(s2[i2] == s[i2 + 1]);
                    assert(s[i2 + 1] != i && (ap >= 0 ==> s[i2 + 1] as int != ap) && s[i2
                        + 1] as int != bp);
                    assert(self.slots@[s[i2 + 1] as int] == old(self).slots@[s[i2 + 1] as int]);
                }
            }
            assert forall|kk: usize|
                kk < self.slots@.len() && (#[trigger] self.slots@[kk as int].value) is Some
                    implies s2.contains(kk) by {
                assert(kk != i);
                assert(self.slots@[kk as int].value == mid.slots@[kk as int].value);
                assert(mid.slots@[kk as int].value == old(self).slots@[kk as int].value);
                assert(s.contains(kk));
                let q = choose|q: int| 0 <= q < s.len() && s[q] == kk;
                assert(q != p);
                if q < p {
                    assert(s2[q] == s[q]);
                } else {
                    assert(s2[q - 1] == s[q]);
                }
            }
            // The freed slot joins the free list; nothing else moves.
            assert(self.free@ =~= old(self).free@.push(i));
            assert(self.free@.no_duplicates()) by {
                assert forall|x: int, y: int|
                    0 <= x < self.free@.len() && 0 <= y < self.free@.len() && x != y
                        implies self.free@[x] != self.free@[y] by {
                    if x == self.free@.len() - 1 {
                        assert(self.free@[x] == i);
                        assert(old(self).slots@[old(self).free@[y] as int].value is None);
                    } else if y == self.free@.len() - 1 {
                        assert(self.free@[y] == i);
                        assert(old(self).slots@[old(self).free@[x] as int].value is None);
                    }
                }
            }
            assert forall|j: int|
                0 <= j < self.free@.len() implies self.slots@[#[trigger] self.free@[j] as int].value is None
                    && self.free@[j] < self.slots@.len() by {
                if j < self.free@.len() - 1 {
                    assert(self.free@[j] == old(self).free@[j]);
                    assert(old(self).slots@[old(self).free@[j] as int].value is None);
                    assert(old(self).free@[j] != i);
                    assert(self.slots@[self.free@[j] as int].value
                        == mid.slots@[self.free@[j] as int].value);
                } else {
                    assert(self.free@[j] == i);
                }
            }
            assert forall|kk: usize|
                kk < self.slots@.len() && (#[trigger] self.slots@[kk as int].value) is None
                    implies self.free@.contains(kk) by {
                if kk == i {
                    assert(self.free@[self.free@.len() - 1] == i);
                } else {
                    assert(self.slots@[kk as int].value == old(self).slots@[kk as int].value);
                    assert(old(self).free@.contains(kk));
                    let q = choose|q: int| 0 <= q < old(self).free@.len() && old(self).free@[q]
                        == kk;
                    assert(self.free@[q] == kk);
                }
            }
            assert(self.wf());
            assert(self@ =~= old(self)@.remove(p)) by {
                old(self)@.remove_ensures(p);
                assert forall|i2: int| 0 <= i2 < s2.len() implies self@[i2] == old(self)@.remove(
                    p,
                )[i2] by {
                    let i0: int = if i2 < p { i2 } else { i2 + 1 };
                    assert(s2[i2] == s[i0] && s[i0] != i);
                    assert(self.slots@[s[i0] as int].value == mid.slots@[s[i0] as int].value);
                    assert(mid.slots@[s[i0] as int].value == old(self).slots@[s[i0] as int].value);
                }
            }
            assert(taken == Some(old(self)@[p])) by {
                assert(old(self)@[p] == old(self).slots@[s[p] as int].value.unwrap());
            }
            assert forall|h2: Handle| #[trigger] self.valid_handle(h2) implies old(self)
                .valid_handle(h2) && h2 != h by {
                let idx = h2.index;
                assert(idx != i);
                assert(self.slots@[idx as int].value == old(self).slots@[idx as int].value);
                assert(self.slots@[idx as int].generation == old(self).slots@[idx as int]
                    .generation);
            }
            assert forall|h2: Handle| old(self).valid_handle(h2) && h2 != h implies #[trigger] self
                .valid_handle(h2) by {
                let idx = h2.index;
                assert(idx != i);
                assert(self.slots@[idx as int].value == old(self).slots@[idx as int].value);
                assert(self.slots@[idx as int].generation == old(self).slots@[idx as int]
                    .generation);
            }
            assert forall|h2: Handle| old(self).valid_handle(h2) && h2 != h implies #[trigger] self
                .handle_pos(h2) == old(self).handle_pos(h2) - (
            if old(self).handle_pos(h2) < p {
                0int
            } else {
                1int
            }) by {
                let idx = h2.index;
                assert(idx != i);
                assert(s.contains(idx));
                let q = s.index_of(idx);
                assert(0 <= q < s.len() && s[q] == idx);
                lemma_index_of_distinct(s, q);
                assert(q != p);
                if q < p {
                    assert(s2[q] == idx);
                    lemma_index_of_distinct(s2, q);
                } else {
                    assert(s2[q - 1] == idx);
                    lemma_index_of_distinct(s2, q - 1);
                }
            }
        }
        match taken {
            Some(v) => Ok(v),
            None => Err(ListError::InvalidHandle),
        }
    }

    /// Splices `value` in directly after the node `h` refers to, in
    /// constant time, and returns a handle to the new node; a stale or
    /// foreign handle is rejected as `InvalidHandle` and the list is
    /// left untouched.
    pub fn insert_after(&mut self, h: Handle, value: T) -> (r: Result<Handle, ListError>)
        requires
            old(self).wf(),
            old(self)@.len() < usize::MAX,
        ensures
            final(self).wf(),
            old(self).valid_handle(h) ==> r is Ok,
            !old(self).valid_handle(h) ==> r == Err::<Handle, ListError>(
                ListError::InvalidHandle,
            ) && *final(self) == *old(self),
            r matches Ok(nh) ==> final(self)@ == old(self)@.insert(
                old(self).handle_pos(h) + 1,
                value,
            ) && final(self).valid_handle(nh) && final(self).handle_pos(nh) == old(
                self,
            ).handle_pos(h) + 1 && !old(self).valid_handle(nh),
            forall|h2: Handle|
                old(self).valid_handle(h2) ==> #[trigger] final(self).valid_handle(h2),
            r matches Ok(nh) ==> forall|h2: Handle|
                #[trigger] final(self).valid_handle(h2) ==> old(self).valid_handle(h2) || h2
                    == nh,
            forall|h2: Handle|
                old(self).valid_handle(h) && old(self).valid_handle(h2)
                    ==> #[trigger] final(self).handle_pos(h2) == old(self).handle_pos(h2) + (
                if old(self).handle_pos(h2) <= old(self).handle_pos(h) {
                    0int
                } else {
                    1int
                }),
    {
        if !self.is_valid_handle(h) {
            return Err(ListError::InvalidHandle);
        }
        let i = h.index;
        let ghost p = self.handle_pos(h);
        proof {
            self.lemma_handle_pos_in_range(h);
            assert(self.order@.contains(i));
            assert(self.order@[p] == i);
        }
        let nxt = self.slots[i].next;
        let nh = self.link_at(value, Some(i), nxt, Ghost(p + 1));
        Ok(nh)
    }

    /// Splices `value` in directly before the node `h` refers to, in
    /// constant time, and returns a handle to the new node; a stale or
    /// foreign handle is rejected as `InvalidHandle` and the list is
    /// left untouched.
    pub fn insert_before(&mut self, h: Handle, value: T) -> (r: Result<Handle, ListError>)
        requires
            old(self).wf(),
            old(self)@.len() < usize::MAX,
        ensures
            final(self).wf(),
            old(self).valid_handle(h) ==> r is Ok,
            !old(self).valid_handle(h) ==> r == Err::<Handle, ListError>(
                ListError::InvalidHandle,
            ) && *final(self) == *old(self),
            r matches Ok(nh) ==> final(self)@ == old(self)@.insert(
                old(self).handle_pos(h),
                value,
            ) && final(self).valid_handle(nh) && final(self).handle_pos(nh) == old(
                self,
            ).handle_pos(h) && !old(self).valid_handle(nh),
            forall|h2: Handle|
                old(self).valid_handle(h2) ==> #[trigger] final(self).valid_handle(h2),
            r matches Ok(nh) ==> forall|h2: Handle|
                #[trigger] final(self).valid_handle(h2) ==> old(self).valid_handle(h2) || h2
                    == nh,
            forall|h2: Handle|
                old(self).valid_handle(h) && old(self).valid_handle(h2)
                    ==> #[trigger] final(self).handle_pos(h2) == old(self).handle_pos(h2) + (
                if old(self).handle_pos(h2) < old(self).handle_pos(h) {
                    0int
                } else {
                    1int
                }),
    {
        if !self.is_valid_handle(h) {
            return Err(ListError::InvalidHandle);
        }
        let i = h.index;
        let ghost p = self.handle_pos(h);
        proof {
            self.lemma_handle_pos_in_range(h);
            assert(self.order@.contains(i));
            assert(self.order@[p] == i);
        }
        let prv = self.slots[i].prev;
        let nh = self.link_at(value, prv, Some(i), Ghost(p));
        Ok(nh)
    }

    /// Removes and returns the head value, or `None` (the `Empty`
    /// outcome) if the list has no elements, in which case nothing
    /// changes.
    ///
    /// Handles to the other nodes stay valid, one position closer to the
    /// head; a handle to the removed head node becomes invalid.
    pub fn pop_front(&mut self) -> (r: Option<T>)
        requires
            old(self).wf(),
        ensures
            final(self).wf(),
            old(self)@.len() == 0 ==> r is None && *final(self) == *old(self),
            old(self)@.len() > 0 ==> r == Some(old(self)@[0]) && final(self)@ == old(
                self,
            )@.drop_first(),
            forall|h2: Handle|
                #[trigger] final(self).valid_handle(h2) ==> old(self).valid_handle(h2),
            forall|h2: Handle|
                old(self).valid_handle(h2) && old(self).handle_pos(h2) == 0
                    ==> !(#[trigger] final(self).valid_handle(h2)),
            forall|h2: Handle|
                old(self).valid_handle(h2) && old(self).handle_pos(h2) > 0
                    ==> (#[trigger] final(self).valid_handle(h2))
                        && final(self).handle_pos(h2) == old(self).handle_pos(h2) - 1,
    {
        match self.head {
            None => None,
            Some(k) => {
                let g = self.slots[k].generation;
                let h = Handle { index: k, generation: g };
                proof {
                    assert(self.order@[0] == k);
                    lemma_index_of_distinct(self.order@, 0);
                    assert(self.handle_pos(h) == 0);
                }
                let r = self.remove(h);
                proof {
                    assert(final(self)@ =~= old(self)@.drop_first());
                    assert forall|h2: Handle|
                        old(self).valid_handle(h2) && old(self).handle_pos(h2) == 0
                            implies !self.valid_handle(h2) by {
                        let q = old(self).order@.index_of(h2.index);
                        assert(old(self).order@.contains(h2.index));
                        assert(0 <= q < old(self).order@.len() && old(self).order@[q]
                            == h2.index);
                        assert(h2.index == k && h2.generation == g);
                        assert(h2 == h);
                    }
                    assert forall|h2: Handle|
                        old(self).valid_handle(h2) && old(self).handle_pos(h2) > 0
                            implies #[trigger] self.valid_handle(h2) && self.handle_pos(h2) == old(
                        self,
                    ).handle_pos(h2) - 1 by {
                        assert(h2 != h);
                    }
                }
                Some(r.unwrap())
            },
        }
    }

    /// Removes and returns the tail value, or `None` (the `Empty`
    /// outcome) if the list has no elements, in which case nothing
    /// changes.
    ///
    /// Handles to the other nodes stay valid, at their old positions; a
    /// handle to the removed tail node becomes invalid.
    pub fn pop_back(&mut self) -> (r: Option<T>)
        requires
            old(self).wf(),
        ensures
            final(self).wf(),
            old(self)@.len() == 0 ==> r is None && *final(self) == *old(self),
            old(self)@.len() > 0 ==> r == Some(old(self)@.last()) && final(self)@ == old(
                self,
            )@.drop_last(),
            forall|h2: Handle|
                #[trigger] final(self).valid_handle(h2) ==> old(self).valid_handle(h2),
            forall|h2: Handle|
                old(self).valid_handle(h2) && old(self).handle_pos(h2) == old(self)@.len() - 1
                    ==> !(#[trigger] final(self).valid_handle(h2)),
            forall|h2: Handle|
                old(self).valid_handle(h2) && old(self).handle_pos(h2) < old(self)@.len() - 1
                    ==> (#[trigger] final(self).valid_handle(h2))
                        && final(self).handle_pos(h2) == old(self).handle_pos(h2),
    {
        match self.tail {
            None => None,
            Some(k) => {
                let ghost n = self.order@.len() as int;
                let g = self.slots[k].generation;
                let h = Handle { index: k, generation: g };
                proof {
                    assert(self.order@[n - 1] == k);
                    lemma_index_of_distinct(self.order@, n - 1);
                    assert(self.handle_pos(h) == n - 1);
                }
                let r = self.remove(h);
                proof {
                    assert(final(self)@ =~= old(self)@.drop_last());
                    assert forall|h2: Handle|
                        old(self).valid_handle(h2) && old(self).handle_pos(h2) == n - 1
                            implies !self.valid_handle(h2) by {
                        let q = old(self).order@.index_of(h2.index);
                        assert(old(self).order@.contains(h2.index));
                        assert(0 <= q < old(self).order@.len() && old(self).order@[q]
                            == h2.index);
                        assert(h2.index == k && h2.generation == g);
                        assert(h2 == h);
                    }
                    assert forall|h2: Handle|
                        old(self).valid_handle(h2) && old(self).handle_pos(h2) < n - 1
                            implies #[trigger] self.valid_handle(h2) && self.handle_pos(h2) == old(
                        self,
                    ).handle_pos(h2) by {
                        assert(h2 != h);
                    }
                }
                Some(r.unwrap())
            },
        }
    }

    /// The number of elements in the list.
    pub fn len(&self) -> (n: usize)
        requires
            self.wf(),
        ensures
            n == self@.len(),
    {
        self.length
    }

    /// The values in head-to-tail order, as references collected by one
    /// walk along the `next` links.
    ///
    /// Each call yields an independent snapshot; the borrow it holds on
    /// the list keeps the list from being mutated while the references
    /// are alive.
    pub fn iter_forward(&self) -> (r: Vec<&T>)
        requires
            self.wf(),
        ensures
            r@.len() == self@.len(),
            forall|j: int| 0 <= j < r@.len() ==> *(#[trigger] r@[j]) == self@[j],
    {
        let mut out: Vec<&T> = Vec::new();
        let mut cur = self.head;
        let ghost mut i: int = 0;
        while cur.is_some()
            invariant
                self.wf(),
                0 <= i <= self@.len(),
                cur == (if i < self@.len() {
                    Some(self.order@[i])
                } else {
                    None::<usize>
                }),
                out@.len() == i,
                forall|j: int| 0 <= j < i ==> *(#[trigger] out@[j]) == self@[j],
            decreases self@.len() - i,
        {
            let k = cur.unwrap();
            out.push(self.slots[k].value.as_ref().unwrap());
            cur = self.slots[k].next;
            proof {
                i = i + 1;
            }
        }
        out
    }

    /// The values in tail-to-head order, as references collected by one
    /// walk along the `prev` links.
    ///
    /// Each call yields an independent snapshot; the borrow it holds on
    /// the list keeps the list from being mutated while the references
    /// are alive.
    pub fn iter_backward(&self) -> (r: Vec<&T>)
        requires
            self.wf(),
        ensures
            r@.len() == self@.len(),
            forall|j: int|
                0 <= j < r@.len() ==> *(#[trigger] r@[j]) == self@[self@.len() - 1 - j],
    {
        let mut out: Vec<&T> = Vec::new();
        let mut cur = self.tail;
        let ghost n = self@.len() as int;
        let ghost mut i: int = 0;
        while cur.is_some()
            invariant
                self.wf(),
                n == self@.len(),
                0 <= i <= n,
                cur == (if i < n {
                    Some(self.order@[n - 1 - i])
                } else {
                    None::<usize>
                }),
                out@.len() == i,
                forall|j: int| 0 <= j < i ==> *(#[trigger] out@[j]) == self@[n - 1 - j],
            decreases n - i,
        {
            let k = cur.unwrap();
            out.push(self.slots[k].value.as_ref().unwrap());
            cur = self.slots[k].prev;
            proof {
                i = i + 1;
            }
        }
        out
    }

    /// Whether the list holds no elements.
    pub fn is_empty(&self) -> (b: bool)
        requires
            self.wf(),
        ensures
            b == (self@.len() == 0),
    {
        self.length == 0
    }
}

impl<T> Default for LinkedList<T> {
    /// An empty list, the same as `new()`.
    fn default() -> (l: Self)
        ensures
            l.wf(),
            l@ == Seq::<T>::empty(),
    {
        LinkedList::new()
    }
}

} // verus!
