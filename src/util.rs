use vstd::prelude::*;

verus! {

/// Turns a condition into an `Option`, so that `?` can stop on it.
pub trait Checkpoint: Sized {
    spec fn holds(self) -> bool;

    fn check(self) -> (r: Option<()>)
        ensures
            r.is_some() == self.holds(),
    ;
}

impl Checkpoint for bool {
    open spec fn holds(self) -> bool {
        self
    }

    fn check(self) -> (r: Option<()>) {
        if self {
            Some(())
        } else {
            None
        }
    }
}

} // verus!
