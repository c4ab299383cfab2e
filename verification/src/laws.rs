//! What holds of every run of pushes and pops.
//!
//! The statements are over the sequence model of the operations, which is
//! what the contracts of the executable operations are written in, so each
//! carries over to any list through its view.

use crate::model::{
    absent, after_pops, after_pushes, pop_outputs, present, pushed, pushes_at, remaining, repeated,
    End,
};
use vstd::prelude::*;

verus! {

/// Pushing `values` at the back, in order, appends them.
pub proof fn lemma_pushes_at_back<T>(s: Seq<T>, values: Seq<T>)
    ensures
        after_pushes(s, pushes_at(End::Back, values)) == s + values,
    decreases values.len(),
{
    if values.len() > 0 {
        let rest = values.drop_first();
        assert(pushes_at(End::Back, values).drop_first() =~= pushes_at(End::Back, rest));
        lemma_pushes_at_back(pushed(s, End::Back, values[0]), rest);
    }
}

/// Pushing `values` at the front, in order, prepends them in reverse.
pub proof fn lemma_pushes_at_front<T>(s: Seq<T>, values: Seq<T>)
    ensures
        after_pushes(s, pushes_at(End::Front, values)) == values.reverse() + s,
    decreases values.len(),
{
    if values.len() > 0 {
        let rest = values.drop_first();
        assert(pushes_at(End::Front, values).drop_first() =~= pushes_at(End::Front, rest));
        lemma_pushes_at_front(pushed(s, End::Front, values[0]), rest);
    }
}

/// Every push makes the sequence one longer.
pub proof fn lemma_pushes_length<T>(s: Seq<T>, ops: Seq<(End, T)>)
    ensures
        after_pushes(s, ops).len() == s.len() + ops.len(),
    decreases ops.len(),
{
    if ops.len() > 0 {
        lemma_pushes_length(pushed(s, ops[0].0, ops[0].1), ops.drop_first());
    }
}

/// The `i`-th of `n` pops at one end of `s` returns the `i`-th element
/// counted from that end, as long as there is one.
proof fn lemma_pops_pointwise<T>(s: Seq<T>, end: End, n: nat)
    ensures
        pop_outputs(s, repeated(end, n)).len() == n,
        forall|i: int|
            0 <= i < n && i < s.len() ==> #[trigger] pop_outputs(s, repeated(end, n))[i] == Some(
                match end {
                    End::Front => s[i],
                    End::Back => s[s.len() - 1 - i],
                },
            ),
        forall|i: int|
            0 <= i < n && i >= s.len() ==> #[trigger] pop_outputs(s, repeated(end, n))[i] is None,
        n <= s.len() ==> after_pops(s, repeated(end, n)) == (match end {
            End::Front => s.skip(n as int),
            End::Back => s.take(s.len() - n),
        }),
        n >= s.len() ==> after_pops(s, repeated(end, n)) == Seq::<T>::empty(),
    decreases n,
{
    if n > 0 {
        let rest = remaining(s, end);
        assert(repeated(end, n).drop_first() =~= repeated(end, (n - 1) as nat));
        lemma_pops_pointwise(rest, end, (n - 1) as nat);
        assert forall|i: int| 0 < i < n implies pop_outputs(s, repeated(end, n))[i] == pop_outputs(
            rest,
            repeated(end, (n - 1) as nat),
        )[i - 1] by {}
    }
}

/// Up to `s.len()` pops at the back return the last elements of `s`, the
/// last one first, and leave the elements before them; any further pop
/// returns nothing and leaves the sequence empty.
pub proof fn lemma_pops_at_back<T>(s: Seq<T>, n: nat)
    ensures
        n <= s.len() ==> pop_outputs(s, repeated(End::Back, n)) == present(
            s.reverse().take(n as int),
        ),
        n <= s.len() ==> after_pops(s, repeated(End::Back, n)) == s.take(s.len() - n),
        n >= s.len() ==> pop_outputs(s, repeated(End::Back, n)) == present(s.reverse()) + absent(
            (n - s.len()) as nat,
        ),
        n >= s.len() ==> after_pops(s, repeated(End::Back, n)) == Seq::<T>::empty(),
{
    lemma_pops_pointwise(s, End::Back, n);
}

/// Up to `s.len()` pops at the front return the first elements of `s`, in
/// order, and leave the elements after them; any further pop returns nothing
/// and leaves the sequence empty.
pub proof fn lemma_pops_at_front<T>(s: Seq<T>, n: nat)
    ensures
        n <= s.len() ==> pop_outputs(s, repeated(End::Front, n)) == present(s.take(n as int)),
        n <= s.len() ==> after_pops(s, repeated(End::Front, n)) == s.skip(n as int),
        n >= s.len() ==> pop_outputs(s, repeated(End::Front, n)) == present(s) + absent(
            (n - s.len()) as nat,
        ),
        n >= s.len() ==> after_pops(s, repeated(End::Front, n)) == Seq::<T>::empty(),
{
    lemma_pops_pointwise(s, End::Front, n);
}

/// Values pushed at the back of an empty sequence and then popped from the
/// back, as many pops as pushes, come out last first and leave the sequence
/// empty: one more pop returns nothing.
pub proof fn lemma_back_is_last_in_first_out<T>(values: Seq<T>)
    ensures
        pop_outputs(
            after_pushes(Seq::empty(), pushes_at(End::Back, values)),
            repeated(End::Back, values.len()),
        ) == present(values.reverse()),
        pop_outputs(
            after_pushes(Seq::empty(), pushes_at(End::Back, values)),
            repeated(End::Back, values.len() + 1),
        ) == present(values.reverse()) + absent(1),
{
    let built = after_pushes(Seq::empty(), pushes_at(End::Back, values));
    lemma_pushes_at_back(Seq::empty(), values);
    lemma_pops_at_back(built, values.len());
    lemma_pops_at_back(built, values.len() + 1);
}

/// Values pushed at the front of an empty sequence and then popped from the
/// front, as many pops as pushes, come out last first and leave the sequence
/// empty: one more pop returns nothing.
pub proof fn lemma_front_is_last_in_first_out<T>(values: Seq<T>)
    ensures
        pop_outputs(
            after_pushes(Seq::empty(), pushes_at(End::Front, values)),
            repeated(End::Front, values.len()),
        ) == present(values.reverse()),
        pop_outputs(
            after_pushes(Seq::empty(), pushes_at(End::Front, values)),
            repeated(End::Front, values.len() + 1),
        ) == present(values.reverse()) + absent(1),
{
    let built = after_pushes(Seq::empty(), pushes_at(End::Front, values));
    lemma_pushes_at_front(Seq::empty(), values);
    lemma_pops_at_front(built, values.len());
    lemma_pops_at_front(built, values.len() + 1);
}

/// Emptying a sequence from the front reads it in order, and that is the
/// reverse of what emptying it from the back reads.
pub proof fn lemma_front_reads_back_reversed<T>(s: Seq<T>)
    ensures
        pop_outputs(s, repeated(End::Front, s.len())) == present(s),
        pop_outputs(s, repeated(End::Back, s.len())) == present(s.reverse()),
        pop_outputs(s, repeated(End::Front, s.len())) == pop_outputs(
            s,
            repeated(End::Back, s.len()),
        ).reverse(),
{
    lemma_pops_at_front(s, s.len());
    lemma_pops_at_back(s, s.len());
}

/// Whatever the ends at which values were pushed onto an empty sequence,
/// popping all of them from the front gives the reverse of what popping all
/// of them from the back gives.
pub proof fn lemma_mixed_pushes_read_alike<T>(ops: Seq<(End, T)>)
    ensures
        after_pushes(Seq::<T>::empty(), ops).len() == ops.len(),
        pop_outputs(after_pushes(Seq::empty(), ops), repeated(End::Front, ops.len()))
            == pop_outputs(
            after_pushes(Seq::empty(), ops),
            repeated(End::Back, ops.len()),
        ).reverse(),
{
    lemma_pushes_length(Seq::<T>::empty(), ops);
    lemma_front_reads_back_reversed(after_pushes(Seq::<T>::empty(), ops));
}

/// Pops on an empty sequence, at whatever ends and however many, all return
/// nothing and leave it empty.
pub proof fn lemma_pops_on_empty<T>(ends: Seq<End>)
    ensures
        pop_outputs(Seq::<T>::empty(), ends) == absent::<T>(ends.len()),
        after_pops(Seq::<T>::empty(), ends) == Seq::<T>::empty(),
    decreases ends.len(),
{
    if ends.len() > 0 {
        lemma_pops_on_empty::<T>(ends.drop_first());
    }
}

} // verus!
