use vstd::arithmetic::div_mod::*;
use vstd::prelude::*;
use vstd::wrapping::i64_specs;

verus! {

/// Reduces `x` to the signed 64-bit value that is congruent to it modulo 2^64.
pub open spec fn wrap_i64(x: int) -> int {
    (x + 0x8000_0000_0000_0000) % 0x1_0000_0000_0000_0000 - 0x8000_0000_0000_0000
}

/// The remainder of `a` by `m` that takes the sign of `a`, as Rust's `%` does.
pub open spec fn rem_toward_zero(a: int, m: int) -> int {
    if a >= 0 {
        a % m
    } else {
        -((-a) % m)
    }
}

/// One round of the compute workload on `t`, for outer index `i`: square and
/// add one (wrapping to 64 bits), keep the remainder by 1,000,000, add `i`,
/// then XOR the value with itself shifted right by 16.
pub open spec fn mix_round(t: i64, i: u32) -> i64 {
    let squared = i64_specs::wrapping_add(i64_specs::wrapping_mul(t, t), 1);
    let kept = (rem_toward_zero(squared as int, 1000000) + i) as i64;
    kept ^ (kept >> 16u32)
}

/// `mix_round` applied `rounds` times to `i` itself.
pub open spec fn mixed(i: u32, rounds: nat) -> i64
    decreases rounds,
{
    if rounds == 0 {
        i as i64
    } else {
        mix_round(mixed(i, (rounds - 1) as nat), i)
    }
}

fn mix(t: i64, i: u32) -> (r: i64)
    ensures
        r == mix_round(t, i),
{
    let squared = t.wrapping_mul(t).wrapping_add(1);
    let kept = squared % 1000000 + i as i64;
    kept ^ (kept >> 16u32)
}


proof fn lemma_wrapping_add_i64(a: i64, b: i64, x: int)
    requires
        a as int == wrap_i64(x),
    ensures
        i64_specs::wrapping_add(a, b) as int == wrap_i64(x + b),
{
    let h: int = 0x8000_0000_0000_0000;
    let m: int = 0x1_0000_0000_0000_0000;
    lemma_add_mod_noop_right(b as int, x + h, m);
    assert((b + (x + h) % m) % m == (x + b + h) % m);
    let v = a + b + h;
    assert(v == b + (x + h) % m);
    if v >= m {
        lemma_mod_add_multiples_vanish(v - m, m);
        lemma_small_mod((v - m) as nat, m as nat);
    } else if v < 0 {
        lemma_mod_add_multiples_vanish(v, m);
        lemma_small_mod((v + m) as nat, m as nat);
    } else {
        lemma_small_mod(v as nat, m as nat);
    }
}

/// The exact sum, over the integers, of `mixed(i, 10)` for `i` in `[0, n)`.
pub open spec fn compute_total(n: nat) -> int
    decreases n,
{
    if n == 0 {
        0
    } else {
        compute_total((n - 1) as nat) + mixed((n - 1) as u32, 10) as int
    }
}

/// The compute workload: runs ten rounds of `mix_round` from each index in
/// `[0, iterations)` and returns the sum of the results, wrapped to 64 bits.
pub fn compute_workload(iterations: u32) -> (r: i64)
    ensures
        r as int == wrap_i64(compute_total(iterations as nat)),
{
    let mut total: i64 = 0;
    let mut i: u32 = 0;
    proof {
        lemma_small_mod(0x8000_0000_0000_0000, 0x1_0000_0000_0000_0000);
    }
    while i < iterations
        invariant
            i <= iterations,
            total as int == wrap_i64(compute_total(i as nat)),
        decreases iterations - i,
    {
        let mut t: i64 = i as i64;
        let mut round: u32 = 0;
        while round < 10
            invariant
                round <= 10,
                t == mixed(i, round as nat),
            decreases 10 - round,
        {
            t = mix(t, i);
            round = round + 1;
        }
        proof {
            lemma_wrapping_add_i64(total, t, compute_total(i as nat));
        }
        total = total.wrapping_add(t);
        i = i + 1;
    }
    total
}

/// The value stored at index `k` by `fill_pattern`: the low 32 bits of
/// `17 * k + 13`, read as a signed 32-bit integer.
pub open spec fn pattern(k: int) -> i32 {
    ((17 * k + 13) % 0x1_0000_0000) as u32 as i32
}

/// Returns the `size` values `pattern(0)`, `pattern(1)`, ...
pub fn fill_pattern(size: u32) -> (r: Vec<i32>)
    ensures
        r@ == Seq::new(size as nat, |k: int| pattern(k)),
{
    let mut data: Vec<i32> = Vec::new();
    let mut i: u32 = 0;
    while i < size
        invariant
            i <= size,
            data@ == Seq::new(i as nat, |k: int| pattern(k)),
        decreases size - i,
    {
        let v: u64 = (i as u64) * 17 + 13;
        let low: u32 = (v % 0x1_0000_0000) as u32;
        data.push(low as i32);
        i = i + 1;
        proof {
            assert(data@ =~= Seq::new(i as nat, |k: int| pattern(k)));
        }
    }
    data
}

/// Every element of `s`, plus every element but the last a second time:
/// each index `k >= 1` adds `s[k]` and `s[k - 1]`, index 0 adds `s[0]`.
pub open spec fn paired_total(s: Seq<i32>) -> int
    decreases s.len(),
{
    if s.len() == 0 {
        0
    } else if s.len() == 1 {
        s[0] as int
    } else {
        paired_total(s.drop_last()) + s.last() + s[s.len() - 2]
    }
}

/// Returns `paired_total(data)` wrapped to 64 bits.
pub fn paired_sum(data: &[i32]) -> (r: i64)
    ensures
        r as int == wrap_i64(paired_total(data@)),
{
    let mut sum: i64 = 0;
    let mut i: usize = 0;
    proof {
        lemma_small_mod(0x8000_0000_0000_0000, 0x1_0000_0000_0000_0000);
        assert(data@.take(0) =~= Seq::<i32>::empty());
    }
    while i < data.len()
        invariant
            i <= data@.len(),
            sum as int == wrap_i64(paired_total(data@.take(i as int))),
        decreases data@.len() - i,
    {
        let ghost before = paired_total(data@.take(i as int));
        proof {
            assert(data@.take(i + 1).drop_last() =~= data@.take(i as int));
            lemma_wrapping_add_i64(sum, data[i as int] as i64, before);
        }
        sum = sum.wrapping_add(data[i] as i64);
        if i > 0 {
            proof {
                lemma_wrapping_add_i64(sum, data[i - 1] as i64, before + data[i as int]);
            }
            sum = sum.wrapping_add(data[i - 1] as i64);
        }
        i = i + 1;
    }
    proof {
        assert(data@.take(data@.len() as int) =~= data@);
    }
    sum
}

/// The memory workload: fills `size` values with `fill_pattern` and returns
/// their `paired_sum`.
pub fn memory_workload(size: u32) -> (r: i64)
    ensures
        r as int == wrap_i64(paired_total(Seq::new(size as nat, |k: int| pattern(k)))),
{
    let data = fill_pattern(size);
    paired_sum(data.as_slice())
}

} // verus!
