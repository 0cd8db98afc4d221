//! The mathematical model shared by both lists: a list is the sequence of its
//! values, head first, and each operation at either end is a function on it.

use vstd::prelude::*;

verus! {

/// The value at the start of `s`, or `None` when `s` is empty.
pub open spec fn first_of<T>(s: Seq<T>) -> Option<T> {
    if s.len() == 0 {
        None
    } else {
        Some(s[0])
    }
}

/// The value at the end of `s`, or `None` when `s` is empty.
pub open spec fn last_of<T>(s: Seq<T>) -> Option<T> {
    if s.len() == 0 {
        None
    } else {
        Some(s[s.len() - 1])
    }
}

/// `s` without its first value; an empty sequence stays empty.
pub open spec fn without_first<T>(s: Seq<T>) -> Seq<T> {
    if s.len() == 0 {
        s
    } else {
        s.drop_first()
    }
}

/// `s` without its last value; an empty sequence stays empty.
pub open spec fn without_last<T>(s: Seq<T>) -> Seq<T> {
    if s.len() == 0 {
        s
    } else {
        s.drop_last()
    }
}

} // verus!
