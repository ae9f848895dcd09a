//! `Option` extensions.
use vstd::prelude::*;

verus! {

/// Takes two `Option`s and returns a single `Option` wrapping both inner
/// values. If either `Option` is `None`, the result is also `None`.
pub fn lift2<A, B>(a: Option<A>, b: Option<B>) -> (r: Option<(A, B)>)
    ensures
        r == (match (a, b) {
            (Some(x), Some(y)) => Some((x, y)),
            _ => None,
        }),
{
    match a {
        Some(ai) => match b {
            Some(bi) => Some((ai, bi)),
            None => None,
        },
        None => None,
    }
}

/// Takes three `Option`s and returns a single `Option` wrapping all inner
/// values. If any `Option` is `None`, the result is also `None`.
pub fn lift3<A, B, C>(a: Option<A>, b: Option<B>, c: Option<C>) -> (r: Option<(A, B, C)>)
    ensures
        r == (match (a, b, c) {
            (Some(x), Some(y), Some(z)) => Some((x, y, z)),
            _ => None,
        }),
{
    match a {
        Some(ai) => match b {
            Some(bi) => match c {
                Some(ci) => Some((ai, bi, ci)),
                None => None,
            },
            None => None,
        },
        None => None,
    }
}

} // verus!
