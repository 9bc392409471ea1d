//! Tiny deterministic workloads for the toolchain canary: enough work that a
//! zero instruction count is unambiguously a collection bug, not an empty
//! benchmark.
use vstd::arithmetic::div_mod::lemma_add_mod_noop;
use vstd::prelude::*;

verus! {

/// The Fibonacci numbers.
pub open spec fn fib_number(n: nat) -> nat
    decreases n,
{
    if n == 0 {
        0
    } else if n == 1 {
        1
    } else {
        fib_number((n - 1) as nat) + fib_number((n - 2) as nat)
    }
}

/// The `n`-th Fibonacci number, as far as 64 bits hold it.
pub fn fib(n: u64) -> (r: u64)
    ensures
        r == fib_number(n as nat) % 0x1_0000_0000_0000_0000,
{
    let mut a: u64 = 0;
    let mut b: u64 = 1;
    let mut i: u64 = 0;
    while i < n
        invariant
            i <= n,
            a == fib_number(i as nat) % 0x1_0000_0000_0000_0000,
            b == fib_number((i + 1) as nat) % 0x1_0000_0000_0000_0000,
        decreases n - i,
    {
        proof {
            lemma_add_mod_noop(
                fib_number((i + 1) as nat) as int,
                fib_number(i as nat) as int,
                0x1_0000_0000_0000_0000,
            );
        }
        let next: u64 = a.wrapping_add(b);
        a = b;
        b = next;
        i = i + 1;
    }
    a
}

/// The sum of the squares of the numbers below `n`.
pub open spec fn squares_below(n: nat) -> nat
    decreases n,
{
    if n == 0 {
        0
    } else {
        squares_below((n - 1) as nat) + ((n - 1) * (n - 1)) as nat
    }
}

/// The sum of the squares below `upto`, as far as 64 bits hold it.
pub fn sum_squares(upto: u64) -> (r: u64)
    ensures
        r == squares_below(upto as nat) % 0x1_0000_0000_0000_0000,
{
    let mut sum: u64 = 0;
    let mut x: u64 = 0;
    while x < upto
        invariant
            x <= upto,
            sum == squares_below(x as nat) % 0x1_0000_0000_0000_0000,
        decreases upto - x,
    {
        let square: u64 = x.wrapping_mul(x);
        proof {
            assert(x * x >= 0) by (nonlinear_arith);
            assert(square == (x * x) % 0x1_0000_0000_0000_0000);
            lemma_add_mod_noop(squares_below(x as nat) as int, x * x, 0x1_0000_0000_0000_0000);
        }
        sum = sum.wrapping_add(square);
        x = x + 1;
    }
    sum
}

} // verus!
