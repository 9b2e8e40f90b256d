//! The retry policy: exponential backoff with a cap.
//!
//! The wait before attempt `i` (0-based) is nothing for the first
//! attempt, and `min(max_wait, floor(initial_wait * 1.5^(i-1)))`
//! milliseconds for every later one. The executable computation carries
//! the exact rational `initial_wait * 3^k / 2^k` as quotient and
//! remainder, and is proved equal to that formula.

use vstd::arithmetic::div_mod::{
    lemma_fundamental_div_mod, lemma_fundamental_div_mod_converse, lemma_div_is_ordered,
};
use vstd::prelude::*;

verus! {

/// How a record is retried: the base wait, the number of attempts, and
/// the cap on the wait.
pub struct RetryConfig {
    /// The wait before the second attempt, in milliseconds.
    pub initial_wait: u64,
    /// How many attempts at most are made per record.
    pub max: u32,
    /// The largest wait between attempts, in milliseconds.
    pub max_wait: u64,
}

impl RetryConfig {
    /// The base wait never exceeds the cap, and at least one attempt is
    /// made.
    pub open spec fn wf(&self) -> bool {
        self.initial_wait <= self.max_wait && self.max >= 1
    }
}

/// 3 to the `n`.
pub open spec fn pow3(n: nat) -> nat
    decreases n,
{
    if n == 0 {
        1
    } else {
        3 * pow3((n - 1) as nat)
    }
}

/// 2 to the `n`.
pub open spec fn pow2(n: nat) -> nat
    decreases n,
{
    if n == 0 {
        1
    } else {
        2 * pow2((n - 1) as nat)
    }
}

/// The uncapped backoff before attempt `k + 1`:
/// `floor(initial * 1.5^k)`.
pub open spec fn raw_wait(initial: u64, k: nat) -> nat {
    (((initial * pow3(k)) as int) / (pow2(k) as int)) as nat
}

/// The wait before attempt `i`: zero for the first attempt, the capped
/// backoff for every later one.
pub open spec fn spec_wait_ms(cfg: RetryConfig, i: nat) -> nat {
    if i == 0 {
        0
    } else {
        let r = raw_wait(cfg.initial_wait, (i - 1) as nat);
        if r > cfg.max_wait {
            cfg.max_wait as nat
        } else {
            r
        }
    }
}

proof fn lemma_pow2_pos(n: nat)
    ensures
        pow2(n) >= 1,
    decreases n,
{
    if n > 0 {
        lemma_pow2_pos((n - 1) as nat);
    }
}

proof fn lemma_pow3_pos(n: nat)
    ensures
        pow3(n) >= 1,
    decreases n,
{
    if n > 0 {
        lemma_pow3_pos((n - 1) as nat);
    }
}

/// Squaring 3 beats cubing 2: `3^(2m) >= 2^(3m)`.
proof fn lemma_pow3_sq_ge_pow2_cube(m: nat)
    ensures
        pow3(2 * m) >= pow2(3 * m),
    decreases m,
{
    if m > 0 {
        lemma_pow3_sq_ge_pow2_cube((m - 1) as nat);
        let p3 = pow3(2 * ((m - 1) as nat));
        let p2 = pow2(3 * ((m - 1) as nat));
        assert(pow3(2 * m) == 9 * p3) by {
            assert(2 * m == 2 * ((m - 1) as nat) + 2);
            assert(pow3((2 * ((m - 1) as nat) + 2) as nat) == 3 * pow3(
                (2 * ((m - 1) as nat) + 1) as nat,
            ));
            assert(pow3((2 * ((m - 1) as nat) + 1) as nat) == 3 * p3);
        }
        assert(pow2(3 * m) == 8 * p2) by {
            assert(3 * m == 3 * ((m - 1) as nat) + 3);
            assert(pow2((3 * ((m - 1) as nat) + 3) as nat) == 2 * pow2(
                (3 * ((m - 1) as nat) + 2) as nat,
            ));
            assert(pow2((3 * ((m - 1) as nat) + 2) as nat) == 2 * pow2(
                (3 * ((m - 1) as nat) + 1) as nat,
            ));
            assert(pow2((3 * ((m - 1) as nat) + 1) as nat) == 2 * p2);
        }
        assert(9 * p3 >= 8 * p2) by (nonlinear_arith)
            requires
                p3 >= p2,
                p2 >= 0,
        ;
    }
}

proof fn lemma_pow2_mono(a: nat, b: nat)
    requires
        a <= b,
    ensures
        pow2(a) <= pow2(b),
    decreases b,
{
    if a < b {
        lemma_pow2_mono(a, (b - 1) as nat);
        lemma_pow2_pos((b - 1) as nat);
    }
}

proof fn lemma_pow2_add(a: nat, b: nat)
    ensures
        pow2(a + b) == pow2(a) * pow2(b),
    decreases a,
{
    if a == 0 {
        assert(pow2(0) == 1);
        assert(pow2(a + b) == 1 * pow2(a + b));
    } else {
        lemma_pow2_add((a - 1) as nat, b);
        let x = pow2((a - 1) as nat);
        let y = pow2(b);
        assert(pow2(((a - 1) as nat) + b) == x * y);
        assert(pow2(a) == 2 * x);
        assert(a + b >= 1);
        assert(pow2(a + b) == 2 * pow2(((a + b) - 1) as nat));
        assert(((a + b) - 1) as nat == ((a - 1) as nat) + b);
        assert(2 * (x * y) == (2 * x) * y) by (nonlinear_arith);
    }
}

proof fn lemma_pow3_add(a: nat, b: nat)
    ensures
        pow3(a + b) == pow3(a) * pow3(b),
    decreases a,
{
    if a == 0 {
        assert(pow3(0) == 1);
        assert(pow3(a + b) == 1 * pow3(a + b));
    } else {
        lemma_pow3_add((a - 1) as nat, b);
        let x = pow3((a - 1) as nat);
        let y = pow3(b);
        assert(pow3(((a - 1) as nat) + b) == x * y);
        assert(pow3(a) == 3 * x);
        assert(a + b >= 1);
        assert(pow3(a + b) == 3 * pow3(((a + b) - 1) as nat));
        assert(((a + b) - 1) as nat == ((a - 1) as nat) + b);
        assert(3 * (x * y) == (3 * x) * y) by (nonlinear_arith);
    }
}

/// While `initial * 3^k < 2^k * bound` with `bound` at most `2^64` and
/// `initial` at least one, `k` stays below 128.
proof fn lemma_backoff_step_bound(initial: u64, k: nat, bound: nat)
    requires
        initial >= 1,
        bound <= 0x1_0000_0000_0000_0000,
        initial * pow3(k) < pow2(k) * bound,
    ensures
        k < 128,
{
    if k >= 128 {
        lemma_pow3_sq_ge_pow2_cube(64);
        assert(pow3(128) >= pow2(192));
        lemma_pow3_add(128, (k - 128) as nat);
        lemma_pow2_add(128, (k - 128) as nat);
        lemma_pow2_add(64, 128 + ((k - 128) as nat));
        lemma_pow2_add(192, (k - 128) as nat);
        let rest3 = pow3((k - 128) as nat);
        let rest2 = pow2((k - 128) as nat);
        lemma_pow3_pos((k - 128) as nat);
        lemma_pow2_pos((k - 128) as nat);
        assert(rest3 >= rest2) by {
            lemma_pow3_ge_pow2((k - 128) as nat);
        }
        assert(pow3(k) == pow3(128) * rest3);
        assert(pow2(k) == pow2(128) * rest2);
        assert(pow2(64) * pow2(k) == pow2(64 + k));
        assert(pow2(64 + k) == pow2(192) * rest2) by {
            assert(64 + k == 192 + ((k - 128) as nat));
        }
        assert(pow3(k) >= pow2(192) * rest2) by (nonlinear_arith)
            requires
                pow3(k) == pow3(128) * rest3,
                pow3(128) >= pow2(192),
                rest3 >= rest2,
                rest2 >= 0,
                pow2(192) >= 0,
        ;
        assert(pow2(64) == 0x1_0000_0000_0000_0000) by {
            crate::dec::lemma_pow256_values();
            lemma_pow2_pow256(8);
        }
        assert(initial * pow3(k) >= pow3(k)) by (nonlinear_arith)
            requires
                initial >= 1,
                pow3(k) >= 0,
        ;
        assert(pow2(k) * bound <= pow2(k) * pow2(64)) by (nonlinear_arith)
            requires
                bound <= pow2(64),
                pow2(k) >= 0,
        ;
        assert(false);
    }
}

proof fn lemma_pow3_ge_pow2(n: nat)
    ensures
        pow3(n) >= pow2(n),
    decreases n,
{
    if n > 0 {
        lemma_pow3_ge_pow2((n - 1) as nat);
    }
}

/// `2^(8n)` is `256^n`.
proof fn lemma_pow2_pow256(n: nat)
    ensures
        pow2(8 * n) == crate::dec::pow256(n),
    decreases n,
{
    if n > 0 {
        lemma_pow2_pow256((n - 1) as nat);
        assert(8 * n == 8 * ((n - 1) as nat) + 8);
        let base = 8 * ((n - 1) as nat);
        lemma_pow2_add(8, base);
        assert(pow2(0) == 1);
        assert(pow2(1) == 2);
        assert(pow2(2) == 4);
        assert(pow2(3) == 8);
        assert(pow2(4) == 16);
        assert(pow2(5) == 32);
        assert(pow2(6) == 64);
        assert(pow2(7) == 128);
        assert(pow2(8) == 256);
    }
}

/// The uncapped backoff never shrinks from one attempt to the next.
pub proof fn lemma_raw_wait_mono(initial: u64, k: nat)
    ensures
        raw_wait(initial, k) <= raw_wait(initial, (k + 1) as nat),
{
    lemma_pow2_pos(k);
    lemma_pow3_pos(k);
    let n = (initial * pow3(k)) as int;
    let d = pow2(k) as int;
    let q = n / d;
    lemma_fundamental_div_mod(n, d);
    assert(n >= q * d) by (nonlinear_arith)
        requires
            n == d * q + n % d,
            n % d >= 0,
    ;
    assert(initial * pow3(k + 1) == 3 * n) by {
        assert(pow3(k + 1) == 3 * pow3(k));
        assert(initial * (3 * pow3(k)) == 3 * (initial * pow3(k))) by (nonlinear_arith);
    }
    assert(pow2(k + 1) == 2 * d);
    assert(3 * n >= q * (2 * d)) by (nonlinear_arith)
        requires
            n >= q * d,
            n >= 0,
            d >= 1,
            q >= 0,
    ;
    assert((q * (2 * d)) / (2 * d) == q) by {
        vstd::arithmetic::div_mod::lemma_div_by_multiple(q, 2 * d);
    }
    lemma_div_is_ordered(q * (2 * d), 3 * n, 2 * d);
}

/// The wait schedule: nothing before the first attempt, then
/// monotonically non-decreasing waits that never exceed the cap.
pub proof fn lemma_wait_schedule(cfg: RetryConfig, i: nat)
    ensures
        spec_wait_ms(cfg, 0) == 0,
        spec_wait_ms(cfg, i) <= cfg.max_wait,
        i >= 1 ==> spec_wait_ms(cfg, i) <= spec_wait_ms(cfg, (i + 1) as nat),
{
    if i >= 1 {
        lemma_raw_wait_mono(cfg.initial_wait, (i - 1) as nat);
    }
}

/// The wait before attempt `i`, in milliseconds.
pub fn wait_before_attempt(cfg: &RetryConfig, i: u32) -> (r: u64)
    ensures
        r == spec_wait_ms(*cfg, i as nat),
{
    if i == 0 {
        return 0;
    }
    let target = i - 1;
    let initial = cfg.initial_wait;
    if initial == 0 {
        proof {
            lemma_pow2_pos(target as nat);
            assert((0 as u64) * pow3((i - 1) as nat) == 0);
            assert(raw_wait(0, (i - 1) as nat) == 0);
        }
        return 0;
    }
    let mut q: u64 = initial;
    let mut rem: u128 = 0;
    let mut den: u128 = 1;
    let mut k: u32 = 0;
    proof {
        assert(pow3(0) == 1 && pow2(0) == 1);
        assert((initial * pow3(0)) == initial as nat) by (nonlinear_arith);
    }
    while k < target
        invariant
            initial == cfg.initial_wait,
            initial >= 1,
            target == i - 1,
            i >= 1,
            den == pow2(k as nat),
            q == raw_wait(initial, k as nat),
            rem == (initial * pow3(k as nat)) as int % (pow2(k as nat) as int),
            rem < den,
            k <= target,
            den <= 0x8000_0000_0000_0000_0000_0000_0000_0000u128,
        decreases target - k,
    {
        proof {
            lemma_pow2_pos(k as nat);
            lemma_pow3_pos(k as nat);
            lemma_fundamental_div_mod((initial * pow3(k as nat)) as int, pow2(k as nat) as int);
        }
        let ghost num: int = (initial * pow3(k as nat)) as int;
        let ghost d_old: int = pow2(k as nat) as int;
        // one multiplication by three halves: value' = (3 q + c) / 2
        // with 3 rem = c den + x
        let mut c: u128 = 0;
        let mut x: u128 = rem;
        x = x + rem;
        if x >= den {
            x = x - den;
            c = c + 1;
        }
        x = x + rem;
        if x >= den {
            x = x - den;
            c = c + 1;
        }
        proof {
            if c == 0 {
                assert(3 * rem == x);
            } else if c == 1 {
                assert(3 * (rem as int) == (den as int) + (x as int));
            } else {
                assert(c == 2);
                assert(3 * (rem as int) == 2 * (den as int) + (x as int));
            }
            assert(3 * (rem as int) == (c as int) * (den as int) + (x as int));
        }
        let s: u128 = 3 * (q as u128) + c;
        let q2: u128 = s / 2;
        let ghost num2: int = 3 * num;
        let ghost d_new: int = 2 * d_old;
        let rem2: u128 = if s % 2 == 1 {
            den + x
        } else {
            x
        };
        proof {
            assert(num == d_old * (q as int) + (rem as int));
            assert(num2 == (s as int) * d_old + (x as int)) by (nonlinear_arith)
                requires
                    num == d_old * (q as int) + (rem as int),
                    3 * (rem as int) == (c as int) * d_old + (x as int),
                    s == 3 * (q as int) + c,
                    num2 == 3 * num,
            ;
            assert(s == 2 * (s / 2) + s % 2);
            assert(den as int == d_old);
            if s % 2 == 1 {
                assert(((s % 2) as int) == 1);
                assert(((s % 2) as int) * d_old == 1 * d_old);
                assert((rem2 as int) == ((s % 2) as int) * d_old + (x as int));
            } else {
                assert(((s % 2) as int) == 0);
                assert(((s % 2) as int) * d_old == 0 * d_old);
                assert((rem2 as int) == ((s % 2) as int) * d_old + (x as int));
            }
            assert((rem2 as int) == ((s % 2) as int) * d_old + (x as int));
            assert(num2 == d_new * ((s / 2) as int) + (rem2 as int)) by (nonlinear_arith)
                requires
                    num2 == (s as int) * d_old + (x as int),
                    s == 2 * (s / 2) + s % 2,
                    d_new == 2 * d_old,
                    (rem2 as int) == ((s % 2) as int) * d_old + (x as int),
            ;
            assert(0 <= (rem2 as int) < d_new) by (nonlinear_arith)
                requires
                    (rem2 as int) == ((s % 2) as int) * d_old + (x as int),
                    s % 2 < 2,
                    0 <= (x as int) < d_old,
                    d_new == 2 * d_old,
                    d_old >= 1,
            ;
            lemma_fundamental_div_mod_converse(num2, d_new, (s / 2) as int, rem2 as int);
            assert(initial * pow3((k + 1) as nat) == num2) by {
                assert(pow3((k + 1) as nat) == 3 * pow3(k as nat));
                assert(initial * (3 * pow3(k as nat)) == 3 * (initial * pow3(k as nat)))
                    by (nonlinear_arith);
            }
            assert(pow2((k + 1) as nat) == d_new);
            assert(raw_wait(initial, (k + 1) as nat) == q2);
        }
        if q2 > cfg.max_wait as u128 {
            proof {
                lemma_wait_cap_beyond(*cfg, initial, (k + 1) as nat, target as nat);
            }
            return cfg.max_wait;
        }
        proof {
            assert(initial * pow3((k + 1) as nat) < pow2((k + 1) as nat) * ((cfg.max_wait + 1)
                as nat)) by (nonlinear_arith)
                requires
                    initial * pow3((k + 1) as nat) == d_new * (q2 as int) + (rem2 as int),
                    0 <= (rem2 as int) < d_new,
                    q2 <= cfg.max_wait,
                    d_new == pow2((k + 1) as nat),
                    d_new >= 1,
            ;
            lemma_backoff_step_bound(initial, (k + 1) as nat, (cfg.max_wait + 1) as nat);
            assert(((k + 1) as nat) < 128);
            lemma_pow2_mono((k + 2) as nat, 128);
            lemma_pow2_127();
            lemma_pow2_add(1, 127);
        }
        q = q2 as u64;
        rem = rem2;
        den = 2 * den;
        k = k + 1;
    }
    if q > cfg.max_wait {
        cfg.max_wait
    } else {
        q
    }
}

/// `2^127`, written out.
proof fn lemma_pow2_127()
    ensures
        pow2(127) == 0x8000_0000_0000_0000_0000_0000_0000_0000,
{
    lemma_pow2_pow256(8);
    crate::dec::lemma_pow256_values();
    assert(pow2(64) == 0x1_0000_0000_0000_0000);
    lemma_pow2_add(63, 64);
    lemma_pow2_add(63, 1);
    assert(pow2(63) * 2 == pow2(64));
    assert(pow2(63) == 0x8000_0000_0000_0000);
    assert(pow2(127) == pow2(63) * pow2(64));
}

/// Once the uncapped backoff exceeds the cap it stays above it, so
/// every later attempt waits exactly the cap.
proof fn lemma_wait_cap_beyond(cfg: RetryConfig, initial: u64, k: nat, later: nat)
    requires
        initial == cfg.initial_wait,
        raw_wait(initial, k) > cfg.max_wait,
        k <= later,
    ensures
        spec_wait_ms(cfg, (later + 1) as nat) == cfg.max_wait,
    decreases later - k,
{
    if k == later {
    } else {
        lemma_raw_wait_mono(initial, k);
        lemma_wait_cap_beyond(cfg, initial, (k + 1) as nat, later);
    }
}

} // verus!
