//! Small combinators.

use vstd::prelude::*;

verus! {

/// How many times `try_until` calls its operation at most.
pub const CAN_TRY_COUNT: usize = 5;

/// `attempts` are the results of the calls that `try_until` made, in order,
/// ending with `r`: every call but the last failed, and a failure comes back
/// only after `CAN_TRY_COUNT` calls.
pub open spec fn tried<T, E>(attempts: Seq<Result<T, E>>, r: Result<T, E>) -> bool {
    &&& 1 <= attempts.len() <= CAN_TRY_COUNT
    &&& attempts.last() == r
    &&& forall|i: int| 0 <= i < attempts.len() - 1 ==> #[trigger] attempts[i] is Err
    &&& r is Err ==> attempts.len() == CAN_TRY_COUNT
}

/// Each result of `attempts` is one that `op` may give.
pub open spec fn made_by<T, E, F: FnMut() -> Result<T, E>>(op: F, attempts: Seq<Result<T, E>>) -> bool {
    forall|i: int| 0 <= i < attempts.len() ==> #[trigger] op.ensures((), attempts[i])
}

/// Calls `to_try` until it succeeds, at most `CAN_TRY_COUNT` times; returns
/// the first success, or the error of the last attempt.
pub fn try_until<T, E, F: FnMut() -> Result<T, E>>(op: F) -> (r: Result<T, E>)
    requires
        op.requires(()),
    ensures
        exists|attempts: Seq<Result<T, E>>| #[trigger] tried(attempts, r) && made_by(op, attempts),
{
    let mut to_try = op;
    let mut i: usize = 1;
    let ghost mut attempts: Seq<Result<T, E>> = Seq::empty();
    loop
        invariant
            1 <= i <= CAN_TRY_COUNT,
            attempts.len() == i - 1,
            to_try == op,
            op.requires(()),
            forall|j: int| 0 <= j < attempts.len() ==> #[trigger] attempts[j] is Err,
            made_by(op, attempts),
        decreases CAN_TRY_COUNT - i,
    {
        let attempt = to_try();
        proof {
            let earlier = attempts;
            attempts = attempts.push(attempt);
            assert forall|j: int| 0 <= j < attempts.len() implies #[trigger] op.ensures((), attempts[j]) by {
                if j < earlier.len() {
                    assert(attempts[j] == earlier[j]);
                }
            }
        }
        match attempt {
            Ok(v) => {
                proof {
                    assert(tried(attempts, Ok::<T, E>(v)));
                    assert(made_by(op, attempts));
                }
                return Ok(v);
            },
            Err(e) => {
                if i == CAN_TRY_COUNT {
                    proof {
                        assert(tried(attempts, Err::<T, E>(e)));
                        assert(made_by(op, attempts));
                    }
                    return Err(e);
                }
            },
        }
        i = i + 1;
    }
}

} // verus!
