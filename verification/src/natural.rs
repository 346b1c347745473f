//! Natural numbers of any size.

use vstd::arithmetic::mul::{
    lemma_mul_inequality, lemma_mul_is_distributive_add, lemma_mul_strictly_positive,
};
use vstd::prelude::*;

verus! {

/// `2^32`, the base that numbers are written in.
pub const BASE: u64 = 0x1_0000_0000;

/// A natural number, written in base `2^32` with the lowest digit first.
pub struct Natural {
    pub digits: Vec<u32>,
}

/// The weight of a digit.
pub open spec fn weight(i: nat) -> nat
    decreases i,
{
    if i == 0 {
        1
    } else {
        BASE as nat * weight((i - 1) as nat)
    }
}

/// A digit of a number; there are zeros past the last one.
pub open spec fn digit_at(s: Seq<u32>, i: int) -> nat {
    if 0 <= i < s.len() {
        s[i] as nat
    } else {
        0
    }
}

/// What the lowest `n` digits stand for.
pub open spec fn low_value(s: Seq<u32>, n: nat) -> nat
    decreases n,
{
    if n == 0 {
        0
    } else {
        low_value(s, (n - 1) as nat) + digit_at(s, n - 1) * weight((n - 1) as nat)
    }
}

impl Natural {
    pub open spec fn value(&self) -> nat {
        low_value(self.digits@, self.digits@.len())
    }
}

proof fn lemma_weight(i: nat)
    ensures
        weight(i) > 0,
        weight(i + 1) == BASE * weight(i),
    decreases i,
{
    if i > 0 {
        lemma_weight((i - 1) as nat);
        lemma_mul_strictly_positive(BASE as int, weight((i - 1) as nat) as int);
    }
}

proof fn lemma_low_bound(s: Seq<u32>, n: nat)
    ensures
        low_value(s, n) < weight(n),
    decreases n,
{
    if n > 0 {
        let k = (n - 1) as nat;
        lemma_low_bound(s, k);
        lemma_weight(k);
        lemma_mul_inequality((digit_at(s, k as int) + 1) as int, BASE as int, weight(k) as int);
        lemma_mul_is_distributive_add(weight(k) as int, digit_at(s, k as int) as int, 1);
        assert((digit_at(s, k as int) + 1) * weight(k) == digit_at(s, k as int) * weight(k)
            + weight(k)) by (nonlinear_arith);
    }
}

proof fn lemma_low_agree(s: Seq<u32>, t: Seq<u32>, n: nat)
    requires
        forall|i: int| 0 <= i < n ==> digit_at(s, i) == digit_at(t, i),
    ensures
        low_value(s, n) == low_value(t, n),
    decreases n,
{
    if n > 0 {
        lemma_low_agree(s, t, (n - 1) as nat);
    }
}

proof fn lemma_low_grows(s: Seq<u32>, n: nat, m: nat)
    requires
        n <= m,
    ensures
        low_value(s, m) == low_value(s, n) || low_value(s, m) >= low_value(s, n) + weight(n),
        n >= s.len() ==> low_value(s, m) == low_value(s, n),
        weight(n) <= weight(m),
    decreases m,
{
    if n < m {
        let k = (m - 1) as nat;
        lemma_low_grows(s, n, k);
        lemma_weight(k);
        lemma_weight(n);
        let d = digit_at(s, k as int);
        if d > 0 {
            lemma_mul_inequality(1, d as int, weight(k) as int);
        } else {
            assert(0 * weight(k) == 0);
        }
        lemma_mul_inequality(1, BASE as int, weight(k) as int);
    }
}

impl Natural {
    pub fn from_u64(n: u64) -> (r: Natural)
        ensures
            r.value() == n,
    {
        let lo: u32 = (n % BASE) as u32;
        let hi: u32 = (n / BASE) as u32;
        let mut digits: Vec<u32> = Vec::new();
        digits.push(lo);
        digits.push(hi);
        proof {
            let s = digits@;
            assert(s.len() == 2);
            lemma_weight(0);
            assert(low_value(s, 0) == 0);
            assert(low_value(s, 1) == digit_at(s, 0) * weight(0));
            assert(low_value(s, 2) == low_value(s, 1) + digit_at(s, 1) * weight(1));
            assert(weight(0) == 1 && weight(1) == BASE);
            assert(digit_at(s, 0) == lo && digit_at(s, 1) == hi);
            assert(low_value(s, 2) == lo + hi * BASE);
        }
        Natural { digits }
    }

    /// Multiplies by a number and adds another one.
    pub fn multiply_add(&mut self, m: u32, a: u32)
        ensures
            final(self).value() == old(self).value() * m + a,
    {
        let mut carry: u32 = a;
        let mut i: usize = 0;
        let ghost s0 = self.digits@;
        proof {
            assert(0 * m == 0);
            assert(a * 1 == a);
        }
        while i < self.digits.len()
            invariant
                i <= self.digits.len(),
                self.digits.len() == s0.len(),
                forall|k: int| i <= k < s0.len() ==> self.digits@[k] == s0[k],
                low_value(self.digits@, i as nat) + carry * weight(i as nat) == low_value(
                    s0,
                    i as nat,
                ) * m + a,
            decreases self.digits.len() - i,
        {
            let ghost before = self.digits@;
            let d: u32 = self.digits[i];
            proof {
                assert(d * m + carry <= u64::MAX) by (nonlinear_arith)
                    requires
                        d <= u32::MAX,
                        m <= u32::MAX,
                        carry <= u32::MAX,
                ;
                assert(d * m >= 0) by (nonlinear_arith)
                    requires
                        d >= 0,
                        m >= 0,
                ;
            }
            let p: u64 = d as u64 * m as u64 + carry as u64;
            let lo: u32 = (p % BASE) as u32;
            let hi: u32 = (p / BASE) as u32;
            self.digits.set(i, lo);
            proof {
                let w = weight(i as nat) as int;
                lemma_low_agree(before, self.digits@, i as nat);
                lemma_weight(i as nat);
                let v0 = low_value(s0, i as nat) as int;
                let v = low_value(before, i as nat) as int;
                assert(digit_at(self.digits@, i as int) == lo);
                assert(digit_at(s0, i as int) == d);
                assert((v + lo * w) + hi * (BASE * w) == (v0 + d * w) * m + a) by (nonlinear_arith)
                    requires
                        v + carry * w == v0 * m + a,
                        lo + hi * BASE == d * m + carry,
                ;
            }
            carry = hi;
            i += 1;
        }
        if carry > 0 {
            let ghost before = self.digits@;
            self.digits.push(carry);
            proof {
                lemma_low_agree(before, self.digits@, i as nat);
                assert(digit_at(self.digits@, i as int) == carry);
            }
        } else {
            assert(0 * weight(i as nat) == 0);
        }
    }

    fn digit(&self, i: usize) -> (d: u32)
        ensures
            d == digit_at(self.digits@, i as int),
    {
        if i < self.digits.len() {
            self.digits[i]
        } else {
            0
        }
    }

    pub fn at_least(&self, other: &Natural) -> (r: bool)
        ensures
            r == (self.value() >= other.value()),
    {
        let n: usize = if self.digits.len() > other.digits.len() {
            self.digits.len()
        } else {
            other.digits.len()
        };
        let ghost s = self.digits@;
        let ghost t = other.digits@;
        proof {
            lemma_low_grows(s, s.len(), n as nat);
            lemma_low_grows(t, t.len(), n as nat);
        }
        let mut i: usize = n;
        while i > 0
            invariant
                s == self.digits@,
                t == other.digits@,
                i <= n,
                (self.value() >= other.value()) == (low_value(s, i as nat) >= low_value(t, i as nat)),
            decreases i,
        {
            let a: u32 = self.digit(i - 1);
            let b: u32 = other.digit(i - 1);
            proof {
                let k = (i - 1) as nat;
                lemma_low_bound(s, k);
                lemma_low_bound(t, k);
                let w = weight(k) as int;
                if a > b {
                    lemma_mul_inequality(b + 1, a as int, w);
                    assert((b + 1) * w == b * w + w) by (nonlinear_arith);
                } else if a < b {
                    lemma_mul_inequality(a + 1, b as int, w);
                    assert((a + 1) * w == a * w + w) by (nonlinear_arith);
                }
            }
            if a > b {
                return true;
            }
            if a < b {
                return false;
            }
            i -= 1;
        }
        true
    }

    pub fn subtract(&mut self, other: &Natural)
        requires
            old(self).value() >= other.value(),
        ensures
            final(self).value() == old(self).value() - other.value(),
    {
        let ghost s0 = self.digits@;
        let ghost t = other.digits@;
        let mut borrow: u64 = 0;
        let mut i: usize = 0;
        proof {
            assert(0 * weight(0) == 0);
        }
        while i < self.digits.len()
            invariant
                i <= self.digits.len(),
                self.digits.len() == s0.len(),
                t == other.digits@,
                borrow <= 1,
                forall|k: int| i <= k < s0.len() ==> self.digits@[k] == s0[k],
                low_value(self.digits@, i as nat) + low_value(t, i as nat) == low_value(
                    s0,
                    i as nat,
                ) + borrow * weight(i as nat),
            decreases self.digits.len() - i,
        {
            let ghost before = self.digits@;
            let a: u64 = self.digits[i] as u64;
            let b: u64 = other.digit(i) as u64 + borrow;
            let (d, next): (u64, u64) = if a >= b {
                (a - b, 0)
            } else {
                (a + BASE - b, 1)
            };
            self.digits.set(i, d as u32);
            proof {
                let w = weight(i as nat) as int;
                lemma_low_agree(before, self.digits@, i as nat);
                lemma_weight(i as nat);
                let v = low_value(before, i as nat) as int;
                let v0 = low_value(s0, i as nat) as int;
                let u = low_value(t, i as nat) as int;
                let dt = digit_at(t, i as int) as int;
                assert((v + d * w) + (u + dt * w) == (v0 + a * w) + next * (BASE * w))
                    by (nonlinear_arith)
                    requires
                        v + u == v0 + borrow * w,
                        d + dt + borrow == a + next * BASE,
                ;
            }
            borrow = next;
            i += 1;
        }
        proof {
            let n = i as nat;
            let m = if t.len() > n {
                t.len()
            } else {
                n
            };
            lemma_low_grows(t, t.len(), m);
            lemma_low_grows(t, n, m);
            lemma_low_bound(self.digits@, n);
            lemma_low_bound(s0, n);
            assert(borrow * weight(n) == 0 || borrow * weight(n) == weight(n)) by (nonlinear_arith)
                requires
                    borrow == 0 || borrow == 1,
            ;
        }
    }
}

} // verus!
