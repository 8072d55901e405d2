//! Overflow-checked arithmetic on program and input positions.
use vstd::prelude::*;

verus! {

/// Addition that reports overflow instead of wrapping.
pub trait SafeAdd: Sized {
    fn safe_add(&self, n: &Self) -> Option<Self>;
}

impl SafeAdd for usize {
    fn safe_add(&self, n: &usize) -> (r: Option<usize>)
        ensures
            r == (if *self + *n <= usize::MAX {
                Some((*self + *n) as usize)
            } else {
                None::<usize>
            }),
    {
        self.checked_add(*n)
    }
}

/// Adds `src` to `*dst` in place; on overflow `*dst` is left unchanged and
/// the error built by `f` is returned.
pub fn safe_add<E, F: Fn() -> E>(dst: &mut usize, src: &usize, f: F) -> (r: Result<(), E>)
    requires
        f.requires(()),
    ensures
        r is Ok <==> *old(dst) + *src <= usize::MAX,
        r is Ok ==> *final(dst) == *old(dst) + *src,
        r is Err ==> *final(dst) == *old(dst) && f.ensures((), r->Err_0),
{
    match dst.safe_add(src) {
        Some(n) => {
            *dst = n;
            Ok(())
        },
        None => Err(f()),
    }
}

} // verus!
