//! The sliding-window sum validator: a number is acceptable exactly when
//! two distinct cells of the current window add up to it.

use std::collections::VecDeque;
use vstd::prelude::*;

verus! {

/// Whether two cells at distinct positions of `window` sum to `num`.  The
/// two positions must differ, but their values may be equal.
pub open spec fn has_pair_sum(window: Seq<i64>, num: i64) -> bool {
    exists|i: int, j: int|
        0 <= i < window.len() && 0 <= j < window.len() && i != j && window[i] + window[j] == num
}

/// Whether `num` is the sum of two distinct cells of the window.  A value
/// that can only be written as twice a cell that occurs once is refused.
pub fn xmas_validate(validators: &VecDeque<i64>, num: i64) -> (r: bool)
    ensures
        r == has_pair_sum(validators@, num),
{
    let n = validators.len();
    let mut i: usize = 0;
    while i < n
        invariant
            n == validators@.len(),
            i <= n,
            forall|a: int, b: int|
                0 <= a < i && 0 <= b < n && a != b ==> validators@[a] + validators@[b] != num,
        decreases n - i,
    {
        let mut j: usize = 0;
        while j < n
            invariant
                n == validators@.len(),
                i < n,
                j <= n,
                forall|b: int| 0 <= b < j && b != i ==> validators@[i as int] + validators@[b]
                    != num,
            decreases n - j,
        {
            if j != i {
                let s: i128 = validators[i] as i128 + validators[j] as i128;
                if s == num as i128 {
                    return true;
                }
            }
            j = j + 1;
        }
        i = i + 1;
    }
    false
}

/// Whether the stream cell `i` fails validation: it is not the sum of two
/// distinct members of the 25 cells before it.
pub open spec fn invalid_at(s: Seq<i64>, i: int) -> bool {
    !has_pair_sum(s.subrange(i - 25, i), s[i])
}

/// The first number of the stream that is not the sum of two distinct
/// members of the 25 numbers before it — or nothing, when every number
/// past the 25-number preamble validates (in particular when the stream is
/// no longer than the preamble).
pub fn first_invalid(numbers: &[i64]) -> (r: Option<i64>)
    ensures
        (match r {
            Option::Some(v) => exists|i: int|
                25 <= i < numbers@.len() && #[trigger] invalid_at(numbers@, i) && v == numbers@[i]
                    && (forall|j: int| 25 <= j < i ==> !invalid_at(numbers@, j)),
            Option::None => forall|i: int| 25 <= i < numbers@.len() ==> !invalid_at(numbers@, i),
        }),
{
    let n = numbers.len();
    let mut validators: VecDeque<i64> = VecDeque::with_capacity(25);
    let mut i: usize = 0;
    while i < n && i < 25
        invariant
            n == numbers@.len(),
            i <= n,
            i <= 25,
            validators@ == numbers@.subrange(0, i as int),
        decreases n - i,
    {
        validators.push_back(numbers[i]);
        proof {
            assert(validators@ =~= numbers@.subrange(0, i as int + 1));
        }
        i = i + 1;
    }
    if i < 25 {
        return Option::None;
    }
    while i < n
        invariant
            n == numbers@.len(),
            25 <= i <= n,
            validators@ == numbers@.subrange(i as int - 25, i as int),
            forall|j: int| 25 <= j < i ==> !invalid_at(numbers@, j),
        decreases n - i,
    {
        let x = numbers[i];
        if xmas_validate(&validators, x) {
            let _slid = validators.pop_front();
            validators.push_back(x);
            proof {
                assert(validators@ =~= numbers@.subrange(i as int + 1 - 25, i as int + 1));
            }
            i = i + 1;
        } else {
            proof {
                assert(invalid_at(numbers@, i as int));
            }
            return Option::Some(x);
        }
    }
    Option::None
}

} // verus!
