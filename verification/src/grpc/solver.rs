use vstd::prelude::*;
use crate::input::ErrLoc;
use crate::upf::serialize::{Answer_, Problem_};

verus! {

/// Answers a planning problem. No solving is done: the answer is the default one (status 0,
/// no plan), and no error is ever returned.
pub fn solve(problem: Problem_) -> (res: Result<Answer_, ErrLoc>)
    ensures
        res matches Ok(a) && a.status == 0 && a.plan is None,
{
    let answer = Answer_::new();
    Ok(answer)
}

} // verus!
