use vstd::prelude::*;

verus! {

/// A handle on the stored session: values kept between runs under text keys.
pub struct SessionManager;

impl SessionManager {
    pub fn new() -> (r: Self)
        ensures
            r == SessionManager,
    {
        SessionManager
    }
}

} // verus!
