use vstd::arithmetic::div_mod::*;
use vstd::prelude::*;

verus! {

/// 2 to the 64th: results of 64-bit wrapping arithmetic are taken modulo this.
pub open spec fn u64_modulus() -> int {
    0x1_0000_0000_0000_0000
}

/// The Fibonacci numbers, with `fib(0) == 0` and `fib(1) == 1`.
pub open spec fn fib(n: nat) -> nat
    decreases n,
{
    if n < 2 {
        n
    } else {
        fib((n - 1) as nat) + fib((n - 2) as nat)
    }
}

/// What `fibonacci` returns: the n-th Fibonacci number modulo 2^64.
pub open spec fn fib_u64(n: nat) -> int {
    (fib(n) as int) % u64_modulus()
}

pub(crate) proof fn lemma_wrapping_add_u64(a: u64, b: u64, x: int, y: int)
    requires
        a as int == x % u64_modulus(),
        b as int == y % u64_modulus(),
    ensures
        a.wrapping_add(b) as int == (x + y) % u64_modulus(),
{
    lemma_add_mod_noop(x, y, u64_modulus());
    if a + b > u64::MAX {
        lemma_mod_self_0(u64_modulus());
        lemma_mod_add_multiples_vanish((a + b - u64_modulus()) as int, u64_modulus());
        lemma_small_mod((a + b - u64_modulus()) as nat, u64_modulus() as nat);
    } else {
        lemma_small_mod((a + b) as nat, u64_modulus() as nat);
    }
}

/// Returns the n-th Fibonacci number, wrapping modulo 2^64 once it no
/// longer fits.
pub fn fibonacci(n: u32) -> (r: u64)
    ensures
        r as int == fib_u64(n as nat),
{
    if n <= 1 {
        proof {
            lemma_small_mod(n as nat, u64_modulus() as nat);
        }
        return n as u64;
    }
    let mut a: u64 = 0;
    let mut b: u64 = 1;
    let mut k: u32 = 1;
    proof {
        lemma_small_mod(0, u64_modulus() as nat);
        lemma_small_mod(1, u64_modulus() as nat);
    }
    while k < n
        invariant
            1 <= k <= n,
            a as int == fib_u64((k - 1) as nat),
            b as int == fib_u64(k as nat),
        decreases n - k,
    {
        let t = a.wrapping_add(b);
        proof {
            lemma_wrapping_add_u64(a, b, fib((k - 1) as nat) as int, fib(k as nat) as int);
        }
        a = b;
        b = t;
        k = k + 1;
    }
    b
}

/// The Fibonacci recurrence holds of the values that `fibonacci` returns:
/// the first two are 0 and 1, and each later one is the sum of the two
/// before it, modulo 2^64.
pub proof fn lemma_fibonacci_recurrence(n: nat)
    ensures
        fib_u64(0) == 0,
        fib_u64(1) == 1,
        n >= 2 ==> fib_u64(n) == (fib_u64((n - 1) as nat) + fib_u64((n - 2) as nat))
            % u64_modulus(),
{
    lemma_small_mod(0, u64_modulus() as nat);
    lemma_small_mod(1, u64_modulus() as nat);
    if n >= 2 {
        lemma_add_mod_noop(
            fib((n - 1) as nat) as int,
            fib((n - 2) as nat) as int,
            u64_modulus(),
        );
    }
}


/// Trial division: `n` is at least 2 and no integer in `[2, n)` divides it.
pub open spec fn prime(n: int) -> bool {
    n >= 2 && forall|d: int| 2 <= d < n ==> #[trigger] (n % d) != 0
}

/// No even number divides an odd one.
proof fn lemma_odd_has_no_even_divisor(n: int, d: int)
    requires
        n >= 0,
        n % 2 == 1,
        d >= 2,
        d % 2 == 0,
    ensures
        n % d != 0,
{
    let k = d / 2;
    lemma_fundamental_div_mod(d, 2);
    assert(d == 2 * k);
    lemma_mod_mod(n, 2, k);
    assert((n % (2 * k)) % 2 == n % 2);
    if n % d == 0 {
        assert(0int % 2 == 0);
    }
}

/// Where `i * i > n`, a divisor of `n` in `[2, n)` leaves a cofactor in `[2, i)`.
proof fn lemma_small_cofactor(n: int, i: int, d: int)
    requires
        n >= 2,
        i >= 2,
        i * i > n,
        i <= d < n,
        n % d == 0,
    ensures
        2 <= n / d < i,
        n % (n / d) == 0,
{
    let k = n / d;
    lemma_fundamental_div_mod(n, d);
    assert(n == d * k);
    if k < 2 {
        assert(d * k <= d) by (nonlinear_arith)
            requires
                k < 2,
                d >= 2,
                d * k == n,
                n >= 2,
        ;
    }
    if k >= i {
        assert(d * k >= i * i) by (nonlinear_arith)
            requires
                k >= i,
                d >= i,
                i >= 2,
        ;
    }
    lemma_mod_multiples_basic(d, k);
    assert(d * k == k * d) by (nonlinear_arith);
}

/// Tells whether `n` is prime, by trial division over the odd numbers up to
/// the integer square root of `n`.
pub fn is_prime(n: u64) -> (r: bool)
    ensures
        r == prime(n as int),
{
    if n < 2 {
        return false;
    }
    if n == 2 {
        return true;
    }
    if n % 2 == 0 {
        assert((n as int) % 2 == 0);
        return false;
    }
    let mut i: u64 = 3;
    while i <= n / i
        invariant
            3 <= i,
            i % 2 == 1,
            n >= 3,
            n % 2 == 1,
            forall|d: int| 2 <= d < i ==> #[trigger] ((n as int) % d) != 0,
        decreases n - i,
    {
        assert(i * i <= n) by {
            lemma_fundamental_div_mod(n as int, i as int);
            assert(i * (n / i) <= n);
            assert(i * i <= i * (n / i)) by (nonlinear_arith)
                requires
                    i <= n / i,
                    i >= 3,
            ;
        }
        assert(i * 3 <= i * i) by (nonlinear_arith)
            requires
                i >= 3,
        ;
        if n % i == 0 {
            assert((n as int) % (i as int) == 0);
            return false;
        }
        proof {
            lemma_odd_has_no_even_divisor(n as int, i + 1);
        }
        i = i + 2;
    }
    proof {
        assert(i * i > n) by {
            lemma_fundamental_div_mod(n as int, i as int);
            assert(i * (n / i) + n % i == n);
            assert(i * i >= i * (n / i) + i) by (nonlinear_arith)
                requires
                    i >= n / i + 1,
                    i >= 3,
            ;
        }
        assert forall|d: int| 2 <= d < n implies #[trigger] ((n as int) % d) != 0 by {
            if d >= i && (n as int) % d == 0 {
                lemma_small_cofactor(n as int, i as int, d);
                let k = (n as int) / d;
                assert((n as int) % k != 0);
            }
        }
    }
    true
}

/// The primes in `[2, limit]`, in ascending order.
pub open spec fn primes_up_to(limit: int) -> Seq<u64>
    decreases limit,
{
    if limit < 2 {
        seq![]
    } else if prime(limit) {
        primes_up_to(limit - 1).push(limit as u64)
    } else {
        primes_up_to(limit - 1)
    }
}

/// Lists, in ascending order, every prime `p` with `2 <= p <= limit`.
pub fn generate_primes(limit: u64) -> (r: Vec<u64>)
    ensures
        r@ == primes_up_to(limit as int),
{
    let mut primes: Vec<u64> = Vec::new();
    if limit < 2 {
        return primes;
    }
    let mut i: u64 = 2;
    while i < limit
        invariant
            2 <= i <= limit,
            primes@ == primes_up_to(i - 1),
        decreases limit - i,
    {
        if is_prime(i) {
            primes.push(i);
        }
        i = i + 1;
    }
    if is_prime(limit) {
        primes.push(limit);
    }
    primes
}


/// n!, with `0! == 1`.
pub open spec fn fact(n: nat) -> nat
    decreases n,
{
    if n <= 1 {
        1
    } else {
        n * fact((n - 1) as nat)
    }
}

/// Returns n! modulo 2^64: the product wraps silently once it no longer fits.
pub fn factorial(n: u64) -> (r: u64)
    ensures
        r as int == (fact(n as nat) as int) % u64_modulus(),
{
    let mut acc: u64 = 1;
    let mut k: u64 = 1;
    proof {
        lemma_small_mod(1, u64_modulus() as nat);
    }
    while k < n
        invariant
            1 <= k,
            k <= n || k == 1,
            acc as int == (fact(k as nat) as int) % u64_modulus(),
        decreases n - k,
    {
        k = k + 1;
        proof {
            lemma_mul_mod_noop_left(fact((k - 1) as nat) as int, k as int, u64_modulus());
            assert(fact(k as nat) == k * fact((k - 1) as nat));
            assert(fact((k - 1) as nat) * k == k * fact((k - 1) as nat)) by (nonlinear_arith);
        }
        acc = acc.wrapping_mul(k);
    }
    assert(fact(0) == fact(1));
    acc
}


/// `primes_up_to(limit)`, and so the result of `generate_primes`, is strictly
/// ascending and holds exactly the primes `p` with `2 <= p <= limit`.
pub proof fn lemma_primes_up_to_exact(limit: int)
    requires
        limit <= u64::MAX,
    ensures
        forall|j: int, k: int|
            0 <= j < k < primes_up_to(limit).len() ==> primes_up_to(limit)[j]
                < primes_up_to(limit)[k],
        forall|j: int|
            0 <= j < primes_up_to(limit).len() ==> 2 <= #[trigger] primes_up_to(limit)[j] <= limit
                && prime(primes_up_to(limit)[j] as int),
        forall|p: int|
            2 <= p <= limit && prime(p) ==> exists|j: int|
                0 <= j < primes_up_to(limit).len() && #[trigger] primes_up_to(limit)[j] == p,
    decreases limit,
{
    if limit >= 2 {
        lemma_primes_up_to_exact(limit - 1);
        let prev = primes_up_to(limit - 1);
        let cur = primes_up_to(limit);
        assert forall|p: int| 2 <= p <= limit && prime(p) implies exists|j: int|
            0 <= j < cur.len() && #[trigger] cur[j] == p by {
            if p == limit {
                assert(cur[cur.len() - 1] == p);
            } else {
                let j = choose|j: int| 0 <= j < prev.len() && #[trigger] prev[j] == p;
                assert(cur[j] == p);
            }
        }
    }
}

} // verus!
