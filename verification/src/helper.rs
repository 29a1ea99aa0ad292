//! Overflow-aware addition.
use vstd::prelude::*;

verus! {

/// Addition that reports overflow instead of wrapping.
pub trait SafeAdd: Sized {
    /// The sum of `self` and `n`, or `None` where it does not fit the type.
    spec fn sum(&self, n: &Self) -> Option<Self>;

    fn safe_add(&self, n: &Self) -> (r: Option<Self>)
        ensures
            r == self.sum(n),
    ;
}

impl SafeAdd for usize {
    open spec fn sum(&self, n: &Self) -> Option<Self> {
        if *self + *n <= usize::MAX {
            Some((*self + *n) as usize)
        } else {
            None
        }
    }

    fn safe_add(&self, n: &Self) -> (r: Option<Self>) {
        self.checked_add(*n)
    }
}

/// Adds `src` to `dst` in place. Where the sum does not fit, `dst` is left as
/// it was and the error made by `f` is returned.
pub fn safe_add<T, F, E>(dst: &mut T, src: &T, f: F) -> (r: Result<(), E>)
    where
        T: SafeAdd,
        F: Fn() -> E,
    requires
        f.requires(()),
    ensures
        match old(dst).sum(src) {
            Some(n) => r is Ok && *final(dst) == n,
            None => r is Err && *final(dst) == *old(dst) && f.ensures((), r->Err_0),
        },
{
    if let Some(n) = dst.safe_add(src) {
        *dst = n;
        Ok(())
    } else {
        Err(f())
    }
}

} // verus!
