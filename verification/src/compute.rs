//! The per-node workload: iterated Fibonacci under wrapping 64-bit
//! arithmetic, repeated a configurable number of times per value.

use vstd::prelude::*;

verus! {

use vstd::wrapping::u64_specs;

/// How many times the Fibonacci workload is repeated per value when the
/// caller configures nothing else.
pub const DEFAULT_AMOUNT_OF_WORK: u64 = 1;

/// The default workload size. A front end may thread a different amount of
/// work into the compute functions; this is the value used when it does not.
pub fn amount_of_work() -> (r: u64)
    ensures
        r == DEFAULT_AMOUNT_OF_WORK,
{
    DEFAULT_AMOUNT_OF_WORK
}

/// The Fibonacci sequence under wrapping 64-bit addition: the value after
/// `n` steps of `(a, b) -> (b, a + b)` starting from `(0, 1)`.
pub open spec fn fib64(n: nat) -> u64
    decreases n,
{
    if n == 0 {
        0
    } else if n == 1 {
        1
    } else {
        u64_specs::wrapping_add(fib64((n - 2) as nat), fib64((n - 1) as nat))
    }
}

/// The aggregate a single value contributes: the wrapping sum over
/// `j < work` of `fib64(value + j)`.
pub open spec fn compute_spec(value: u64, work: u64) -> u64
    decreases work,
{
    if work == 0 {
        0
    } else {
        u64_specs::wrapping_add(
            compute_spec(value, (work - 1) as u64),
            fib64((value + work - 1) as nat),
        )
    }
}

/// Iteratively computes `fib64(n)`.
pub fn fib_value(n: u64) -> (r: u64)
    ensures
        r == fib64(n as nat),
{
    let mut a: u64 = 0;
    let mut b: u64 = 1;
    let mut i: u64 = 0;
    while i < n
        invariant
            i <= n,
            a == fib64(i as nat),
            b == fib64((i + 1) as nat),
        decreases n - i,
    {
        let c = a.wrapping_add(b);
        a = b;
        b = c;
        i = i + 1;
    }
    a
}

/// Computes the workload contribution of one value: the wrapping sum of
/// `work` consecutive Fibonacci numbers starting at index `value`.
pub fn compute_value(value: u64, work: u64) -> (r: u64)
    requires
        value + work <= u64::MAX,
    ensures
        r == compute_spec(value, work),
{
    let mut sum: u64 = 0;
    let mut j: u64 = 0;
    while j < work
        invariant
            j <= work,
            value + work <= u64::MAX,
            sum == compute_spec(value, j),
        decreases work - j,
    {
        let f = fib_value(value + j);
        sum = sum.wrapping_add(f);
        j = j + 1;
    }
    sum
}

} // verus!
