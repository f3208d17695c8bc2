//! General properties of the list, stated over its abstract model (the
//! sequence of values) and proved once for every input.

use vstd::prelude::*;

verus! {

/// One end-of-list operation, as it acts on the list's abstract value
/// sequence. Each variant mirrors the contract of the method of the
/// same name: the pushes always insert, the pops remove only from a
/// non-empty list.
pub enum Operation<T> {
    PushFront(T),
    PushBack(T),
    PopFront,
    PopBack,
}

/// The effect of one operation on the value sequence, exactly as the
/// corresponding method's `ensures` states it.
pub open spec fn apply_op<T>(s: Seq<T>, op: Operation<T>) -> Seq<T> {
    match op {
        Operation::PushFront(v) => seq![v] + s,
        Operation::PushBack(v) => s.push(v),
        Operation::PopFront => if s.len() == 0 {
            s
        } else {
            s.drop_first()
        },
        Operation::PopBack => if s.len() == 0 {
            s
        } else {
            s.drop_last()
        },
    }
}

/// The effect of a whole sequence of operations, applied left to right.
pub open spec fn apply_ops<T>(s: Seq<T>, ops: Seq<Operation<T>>) -> Seq<T>
    decreases ops.len(),
{
    if ops.len() == 0 {
        s
    } else {
        apply_ops(apply_op(s, ops[0]), ops.drop_first())
    }
}

/// What one operation contributes to the element count: +1 for an
/// insertion, -1 for a removal that succeeds, 0 for a pop that finds
/// the list empty.
pub open spec fn op_delta<T>(s: Seq<T>, op: Operation<T>) -> int {
    match op {
        Operation::PushFront(_) => 1,
        Operation::PushBack(_) => 1,
        Operation::PopFront => if s.len() == 0 {
            0
        } else {
            -1
        },
        Operation::PopBack => if s.len() == 0 {
            0
        } else {
            -1
        },
    }
}

/// The number of successful insertions minus the number of successful
/// removals over a whole sequence of operations.
pub open spec fn net_insertions<T>(s: Seq<T>, ops: Seq<Operation<T>>) -> int
    decreases ops.len(),
{
    if ops.len() == 0 {
        0
    } else {
        op_delta(s, ops[0]) + net_insertions(apply_op(s, ops[0]), ops.drop_first())
    }
}

/// After any sequence of push and pop operations, the length equals the
/// starting length plus the successful insertions minus the successful
/// removals.
pub proof fn lemma_len_counts_operations<T>(s: Seq<T>, ops: Seq<Operation<T>>)
    ensures
        apply_ops(s, ops).len() == s.len() + net_insertions(s, ops),
    decreases ops.len(),
{
    if ops.len() > 0 {
        lemma_len_counts_operations(apply_op(s, ops[0]), ops.drop_first());
    }
}

/// `n` front pops applied in a row, as `pop_front`'s contract describes
/// them: a pop of a non-empty list drops the head, a pop of an empty
/// list changes nothing.
pub open spec fn pop_front_n<T>(s: Seq<T>, n: nat) -> Seq<T>
    decreases n,
{
    if n == 0 {
        s
    } else {
        pop_front_n(apply_op(s, Operation::PopFront), (n - 1) as nat)
    }
}

/// Popping the front as many times as the list is long (or more)
/// empties the list; every pop after that point finds it empty and
/// leaves it empty.
pub proof fn lemma_pop_front_drains<T>(s: Seq<T>, n: nat)
    requires
        n >= s.len(),
    ensures
        pop_front_n(s, n).len() == 0,
        pop_front_n(s, n + 1) == pop_front_n(s, n),
    decreases n,
{
    if n == 0 {
        let s1 = apply_op(s, Operation::PopFront);
        assert(s1 == s);
        assert(pop_front_n(s, 1) == pop_front_n(s1, 0));
        assert(pop_front_n(s1, 0) == s1);
    } else {
        lemma_pop_front_drains(apply_op(s, Operation::PopFront), (n - 1) as nat);
    }
}

/// Reversing the forward traversal of a list yields its backward
/// traversal, and the other way round: the two walks visit the same
/// elements, the same number of them, in opposite orders.
pub proof fn lemma_traversal_round_trip<T>(elems: Seq<T>, fwd: Seq<T>, bwd: Seq<T>)
    requires
        fwd.len() == elems.len(),
        bwd.len() == elems.len(),
        forall|j: int| 0 <= j < elems.len() ==> #[trigger] fwd[j] == elems[j],
        forall|j: int| 0 <= j < elems.len() ==> #[trigger] bwd[j] == elems[elems.len() - 1 - j],
    ensures
        fwd.reverse() == bwd,
        bwd.reverse() == fwd,
{
    assert(fwd.reverse() =~= bwd);
    assert(bwd.reverse() =~= fwd);
}

} // verus!
