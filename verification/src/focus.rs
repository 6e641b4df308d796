//! Choosing a window for the keyboard.

use vstd::prelude::*;

verus! {

/// First candidate in most-recently-used order that is not excluded.
pub fn mru_focus_excluding<'a, T>(mru: &'a [T], excluded: impl Fn(&T) -> bool) -> (r: Option<&'a T>)
    requires
        forall|i: int| 0 <= i < mru@.len() ==> call_requires(excluded, (&#[trigger] mru@[i],)),
    ensures
        match r {
            Some(t) => exists|i: int|
                {
                    &&& 0 <= i < mru@.len()
                    &&& *t == #[trigger] mru@[i]
                    &&& call_ensures(excluded, (&mru@[i],), false)
                    &&& forall|j: int|
                        0 <= j < i ==> call_ensures(excluded, (&#[trigger] mru@[j],), true)
                },
            None => forall|j: int|
                0 <= j < mru@.len() ==> call_ensures(excluded, (&#[trigger] mru@[j],), true),
        },
{
    let mut i: usize = 0;
    while i < mru.len()
        invariant
            i <= mru@.len(),
            forall|j: int| 0 <= j < mru@.len() ==> call_requires(excluded, (&#[trigger] mru@[j],)),
            forall|j: int| 0 <= j < i ==> call_ensures(excluded, (&#[trigger] mru@[j],), true),
        decreases mru@.len() - i,
    {
        if !excluded(&mru[i]) {
            return Some(&mru[i]);
        }
        i = i + 1;
    }
    None
}

} // verus!
