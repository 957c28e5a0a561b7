//! What the counting and display challenges watch for, on the chips'
//! whole-number values: the counter running round, every digit shown, and
//! a tens counter that never sits past 9.

use vstd::prelude::*;

verus! {

/// The counter challenge, one step: `flag` says the counter has reached
/// 15 with at least four LEDs lit. Gives the new flag, and whether the
/// challenge is met: the count went round to 0 after that.
pub fn count_goal(flag: bool, value: u8, lit: usize) -> (r: (bool, bool))
    ensures
        r.0 == (flag || (value == 15 && lit >= 4)),
        r.1 == (r.0 && value == 0),
{
    let now = flag || (value == 15 && lit >= 4);
    (now, now && value == 0)
}

/// The digits seen so far, one bit per digit, with digit `value` added.
pub fn seen_digit(seen: u32, value: u8) -> (r: u32)
    requires
        value < 32,
    ensures
        r == seen | (1u32 << value),
{
    seen | (1u32 << value)
}

/// A display shown 10 or more counts the steps in a row it has done so;
/// past 20 it is flagged for good. Below 10 the run starts again.
pub fn watch_display(run: u32, flag: bool, value: u8) -> (r: (u32, bool))
    requires
        value >= 10 ==> run < u32::MAX,
    ensures
        value >= 10 ==> r.0 == run + 1 && r.1 == (flag || run + 1 > 20),
        value < 10 ==> r.0 == 0 && r.1 == flag,
{
    if value >= 10 {
        let n = run + 1;
        (n, flag || n > 20)
    } else {
        (0, flag)
    }
}

/// Display `a` has shown every digit 0 to 9 and never sat past 9, and
/// some other display shows 3 or more.
pub open spec fn tens_met(seen: Seq<u32>, flag: Seq<bool>, values: Seq<u8>, a: int) -> bool {
    &&& seen[a] & 0x3FF == 0x3FF
    &&& !flag[a]
    &&& exists|b: int| 0 <= b < values.len() && b != a && values[b] >= 3
}

/// The stopwatch challenge: some display counts units properly while
/// another one has moved on to 3 or more.
pub fn tens_goal(seen: &Vec<u32>, flag: &Vec<bool>, values: &Vec<u8>) -> (r: bool)
    requires
        seen@.len() == values@.len(),
        flag@.len() == values@.len(),
    ensures
        r == exists|a: int| 0 <= a < values@.len() && #[trigger] tens_met(seen@, flag@, values@, a),
{
    let n = values.len();
    let mut a: usize = 0;
    while a < n
        invariant
            n == values@.len(),
            seen@.len() == n,
            flag@.len() == n,
            a <= n,
            forall|j: int| 0 <= j < a ==> !#[trigger] tens_met(seen@, flag@, values@, j),
        decreases n - a,
    {
        if seen[a] & 0x3FF == 0x3FF && !flag[a] {
            let mut b: usize = 0;
            while b < n
                invariant
                    n == values@.len(),
                    seen@.len() == n,
                    flag@.len() == n,
                    a < n,
                    b <= n,
                    seen@[a as int] & 0x3FF == 0x3FF,
                    !flag@[a as int],
                    forall|j: int| 0 <= j < b ==> !(j != a && #[trigger] values@[j] >= 3),
                decreases n - b,
            {
                if b != a && values[b] >= 3 {
                    assert(0 <= b < values@.len() && b != a && values@[b as int] >= 3);
                    assert(tens_met(seen@, flag@, values@, a as int));
                    return true;
                }
                b = b + 1;
            }
            assert(!tens_met(seen@, flag@, values@, a as int));
        }
        a = a + 1;
    }
    false
}

} // verus!
