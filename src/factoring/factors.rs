use vstd::prelude::*;

verus! {

use crate::divisibility::divides;
use crate::factoring::is_divisor_list;

/// Every positive divisor of `number`, ascending, from one up to `number` itself;
/// zero has none listed.
pub fn factors(number: u64) -> (r: Vec<u64>)
    ensures
        is_divisor_list(number as nat, r@),
{
    let mut to_ret: Vec<u64> = Vec::new();
    let mut factor: u64 = 0;

    while factor < number
        invariant
            factor <= number,
            forall|i: int, j: int| 0 <= i < j < to_ret@.len() ==> to_ret@[i] < to_ret@[j],
            forall|i: int|
                0 <= i < to_ret@.len() ==> 1 <= #[trigger] to_ret@[i] <= factor && divides(
                    to_ret@[i] as nat,
                    number as nat,
                ),
            forall|d: u64|
                1 <= d <= factor && #[trigger] divides(d as nat, number as nat)
                    ==> to_ret@.contains(d),
        decreases number - factor,
    {
        let ghost before = to_ret@;
        factor += 1;
        if number % factor == 0 {
            to_ret.push(factor);
            proof {
                assert(to_ret@[to_ret@.len() - 1] == factor);
            }
        }
        proof {
            assert forall|d: u64| 1 <= d <= factor && #[trigger] divides(d as nat, number as nat)
                implies to_ret@.contains(d) by {
                if d < factor {
                    let i = choose|i: int| 0 <= i < before.len() && before[i] == d;
                    assert(to_ret@[i] == d);
                } else {
                    assert(to_ret@[to_ret@.len() - 1] == d);
                }
            }
        }
    }
    proof {
        assert forall|d: u64| to_ret@.contains(d) implies 1 <= d <= number && #[trigger] divides(
            d as nat,
            number as nat,
        ) by {
            let i = choose|i: int| 0 <= i < to_ret@.len() && to_ret@[i] == d;
            assert(1 <= to_ret@[i] <= factor);
        }
    }
    to_ret
}

} // verus!
