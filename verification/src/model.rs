//! The abstract behaviour of the list operations on plain sequences.
//!
//! A list is viewed as the sequence of its values from head to tail. The
//! functions here say what each operation does to that sequence; the
//! contracts of the executable operations are stated through them.

use vstd::prelude::*;

verus! {

/// The sequence `s` with `value` inserted before its first element.
pub open spec fn pushed_front<T>(s: Seq<T>, value: T) -> Seq<T> {
    seq![value] + s
}

/// The sequence `s` with `value` inserted after its last element.
pub open spec fn pushed_back<T>(s: Seq<T>, value: T) -> Seq<T> {
    s.push(value)
}

/// The first element of `s`, absent when `s` is empty.
pub open spec fn front<T>(s: Seq<T>) -> Option<T> {
    if s.len() == 0 {
        None
    } else {
        Some(s.first())
    }
}

/// The last element of `s`, absent when `s` is empty.
pub open spec fn back<T>(s: Seq<T>) -> Option<T> {
    if s.len() == 0 {
        None
    } else {
        Some(s.last())
    }
}

/// The sequence `s` without its first element; an empty `s` stays as it is.
pub open spec fn without_front<T>(s: Seq<T>) -> Seq<T> {
    if s.len() == 0 {
        s
    } else {
        s.drop_first()
    }
}

/// The sequence `s` without its last element; an empty `s` stays as it is.
pub open spec fn without_back<T>(s: Seq<T>) -> Seq<T> {
    if s.len() == 0 {
        s
    } else {
        s.drop_last()
    }
}

/// One of the two ends of a sequence.
pub enum End {
    Front,
    Back,
}

/// The sequence `s` after `value` is pushed at `end`.
pub open spec fn pushed<T>(s: Seq<T>, end: End, value: T) -> Seq<T> {
    match end {
        End::Front => pushed_front(s, value),
        End::Back => pushed_back(s, value),
    }
}

/// What a pop at `end` of `s` returns.
pub open spec fn popped<T>(s: Seq<T>, end: End) -> Option<T> {
    match end {
        End::Front => front(s),
        End::Back => back(s),
    }
}

/// The sequence that a pop at `end` of `s` leaves.
pub open spec fn remaining<T>(s: Seq<T>, end: End) -> Seq<T> {
    match end {
        End::Front => without_front(s),
        End::Back => without_back(s),
    }
}

/// The sequence `s` after the pushes `ops`, performed in order.
pub open spec fn after_pushes<T>(s: Seq<T>, ops: Seq<(End, T)>) -> Seq<T>
    decreases ops.len(),
{
    if ops.len() == 0 {
        s
    } else {
        after_pushes(pushed(s, ops[0].0, ops[0].1), ops.drop_first())
    }
}

/// What successive pops at `ends` return, in order, starting from `s`.
pub open spec fn pop_outputs<T>(s: Seq<T>, ends: Seq<End>) -> Seq<Option<T>>
    decreases ends.len(),
{
    if ends.len() == 0 {
        Seq::empty()
    } else {
        seq![popped(s, ends[0])] + pop_outputs(remaining(s, ends[0]), ends.drop_first())
    }
}

/// The sequence that successive pops at `ends` leave, starting from `s`.
pub open spec fn after_pops<T>(s: Seq<T>, ends: Seq<End>) -> Seq<T>
    decreases ends.len(),
{
    if ends.len() == 0 {
        s
    } else {
        after_pops(remaining(s, ends[0]), ends.drop_first())
    }
}

/// The same end `n` times.
pub open spec fn repeated(end: End, n: nat) -> Seq<End> {
    Seq::new(n, |i: int| end)
}

/// One push at `end` for each of `values`, in order.
pub open spec fn pushes_at<T>(end: End, values: Seq<T>) -> Seq<(End, T)> {
    Seq::new(values.len(), |i: int| (end, values[i]))
}

/// What pops return when each finds a value: the values of `s`, in order.
pub open spec fn present<T>(s: Seq<T>) -> Seq<Option<T>> {
    s.map_values(|value: T| Some(value))
}

/// What `n` pops return when none finds a value.
pub open spec fn absent<T>(n: nat) -> Seq<Option<T>> {
    Seq::new(n, |i: int| None)
}

} // verus!
