//! The guest's teleporter check: a deeply recursive two-argument function
//! over 15-bit words, parameterized by the eighth register. Its value is
//! specified by the direct recursion `ack_spec`; the executable computation
//! collapses the first levels into verified linear recurrences so that it
//! runs in time proportional to the arguments instead of the recursion
//! tree. `powmod` is the usual square-and-multiply modular power.

use vstd::arithmetic::div_mod::{
    lemma_add_mod_noop, lemma_mul_mod_noop_general,
};
use vstd::arithmetic::power::{
    lemma_pow1, lemma_pow_mod_noop, lemma_pow_multiplies, pow,
};
use vstd::prelude::*;

verus! {

/// `x` to the `y`-th power, modulo `m`, by square-and-multiply. The
/// modulus is kept within a word pair so no intermediate product can
/// overflow.
#[verifier::loop_isolation(false)]
pub fn powmod(x: u32, y: u32, m: u32) -> (r: u32)
    requires
        2 <= m <= 65536,
    ensures
        r == pow(x as int, y as nat) % (m as int),
        r < m,
{
    let mut t: u32 = 1;
    let mut tmp: u32 = x % m;
    let mut y = y;
    let ghost y0 = y as nat;
    proof {
        lemma_pow_mod_noop(x as int, y0, m as int);
    }
    while y > 0
        invariant
            t < m,
            tmp < m,
            pow(x as int, y0) % (m as int) == (t * pow(tmp as int, y as nat)) % (m as int),
        decreases y,
    {
        let ghost y_pre = y as nat;
        let ghost t_pre = t as int;
        let ghost tmp_pre = tmp as int;
        proof {
            assert(y & 1 == y % 2) by (bit_vector);
            assert(y >> 1 == y / 2) by (bit_vector);
            assert(tmp * tmp <= 65535 * 65535) by (nonlinear_arith)
                requires
                    tmp <= 65535,
            ;
            assert(t * tmp <= 65535 * 65535) by (nonlinear_arith)
                requires
                    t <= 65535,
                    tmp <= 65535,
            ;
        }
        if y & 1 > 0 {
            t = (t * tmp) % m;
        }
        tmp = (tmp * tmp) % m;
        y = y >> 1;
        proof {
            let mi = m as int;
            let k = y as nat;
            // pow(tmp_pre, y_pre) == tmp_pre^(y_pre % 2) * pow(tmp_pre^2, k)
            lemma_pow_multiplies(tmp_pre, 2, k);
            assert(pow(tmp_pre, (2 * k) as nat) == pow(pow(tmp_pre, 2), k));
            assert(pow(tmp_pre, 2) == tmp_pre * tmp_pre) by {
                vstd::arithmetic::power::lemma_square_is_pow2(tmp_pre);
            }
            lemma_pow_mod_noop(tmp_pre * tmp_pre, k, mi);
            if y_pre % 2 == 1 {
                assert(pow(tmp_pre, y_pre) == tmp_pre * pow(pow(tmp_pre, 2), k)) by {
                    assert(y_pre == 2 * k + 1);
                    vstd::arithmetic::power::lemma_pow_adds(tmp_pre, 1nat, (2 * k) as nat);
                    lemma_pow1(tmp_pre);
                }
                assert((t_pre * (tmp_pre * pow(tmp_pre * tmp_pre, k))) % mi == (t * pow(
                    tmp as int,
                    k,
                )) % mi) by {
                    lemma_mul_mod_noop_general(
                        t_pre * tmp_pre,
                        pow(tmp_pre * tmp_pre, k),
                        mi,
                    );
                    lemma_mul_mod_noop_general(t as int, pow(tmp_pre * tmp_pre, k), mi);
                    lemma_mul_mod_noop_general(t as int, pow(tmp as int, k), mi);
                    assert(t_pre * (tmp_pre * pow(tmp_pre * tmp_pre, k)) == (t_pre * tmp_pre)
                        * pow(tmp_pre * tmp_pre, k)) by (nonlinear_arith);
                }
            } else {
                assert(y_pre == 2 * k);
                assert((t_pre * pow(tmp_pre, y_pre)) % mi == (t * pow(tmp as int, k)) % mi)
                    by {
                    lemma_mul_mod_noop_general(t_pre, pow(tmp_pre * tmp_pre, k), mi);
                    lemma_mul_mod_noop_general(t_pre, pow(tmp as int, k), mi);
                }
            }
        }
    }
    proof {
        vstd::arithmetic::power::lemma_pow0(tmp as int);
        vstd::arithmetic::div_mod::lemma_small_mod(t as nat, m as nat);
    }
    t
}

/// The teleporter's recursive function, as the guest defines it: a
/// two-argument recursion over words, every value reduced modulo 32768,
/// with the eighth register `r7` taking the place of the second argument
/// when it runs out.
pub open spec fn ack_spec(r7: nat, m: nat, n: nat) -> nat
    decreases m, n,
{
    if m == 0 {
        ((n + 1) % 32768) as nat
    } else if n == 0 {
        ack_spec(r7, (m - 1) as nat, r7)
    } else {
        ack_spec(r7, (m - 1) as nat, ack_spec(r7, m, (n - 1) as nat))
    }
}

/// At the first level the recursion is a unit increment: its closed form.
proof fn lemma_ack_level1(r7: nat, k: nat)
    ensures
        ack_spec(r7, 1, k) == (r7 + 1 + k) % 32768,
    decreases k,
{
    if k == 0 {
        assert(ack_spec(r7, 0, r7) == (r7 + 1) % 32768);
    } else {
        lemma_ack_level1(r7, (k - 1) as nat);
        let prev = ack_spec(r7, 1, (k - 1) as nat);
        assert(ack_spec(r7, 0, prev) == (prev + 1) % 32768);
        lemma_add_mod_noop((r7 + 1 + (k - 1)) as int, 1, 32768);
    }
}

/// At the second level each step adds `r7 + 1`: its closed form.
proof fn lemma_ack_level2(r7: nat, k: nat)
    ensures
        ack_spec(r7, 2, k) == (k * (r7 + 1) + 2 * r7 + 1) % 32768,
    decreases k,
{
    if k == 0 {
        lemma_ack_level1(r7, r7);
    } else {
        lemma_ack_level2(r7, (k - 1) as nat);
        lemma_ack_level1(r7, ack_spec(r7, 2, (k - 1) as nat));
        assert((r7 + 1 + ((k - 1) * (r7 + 1) + 2 * r7 + 1) % 32768) % 32768 == (r7 + 1 + ((k
            - 1) * (r7 + 1) + 2 * r7 + 1)) % 32768) by {
            lemma_add_mod_noop(
                (r7 + 1) as int,
                ((k - 1) * (r7 + 1) + 2 * r7 + 1) as int,
                32768,
            );
            lemma_add_mod_noop(
                ((r7 + 1) % 32768) as int,
                ((k - 1) * (r7 + 1) + 2 * r7 + 1) as int,
                32768,
            );
        }
        assert((r7 + 1) + ((k - 1) * (r7 + 1) + 2 * r7 + 1) == k * (r7 + 1) + 2 * r7 + 1)
            by (nonlinear_arith);
    }
}

/// The teleporter check's parameters: the value planted in the eighth
/// register before the guest's verification routine runs.
pub struct Ackermann {
    pub r7: u16,
}

impl Ackermann {
    /// The register value is a 15-bit word.
    pub open spec fn wf(&self) -> bool {
        self.r7 < 32768
    }

    /// A check parameterized by register value `r7`.
    pub fn new(r7: u16) -> (r: Ackermann)
        requires
            r7 < 32768,
        ensures
            r.wf(),
            r.r7 == r7,
    {
        Ackermann { r7 }
    }

    /// `ack_spec(r7, 1, n)`, by its closed form.
    fn level1(&self, n: u16) -> (r: u16)
        requires
            self.wf(),
            n < 32768,
        ensures
            r == ack_spec(self.r7 as nat, 1, n as nat),
            r < 32768,
    {
        proof {
            lemma_ack_level1(self.r7 as nat, n as nat);
        }
        ((self.r7 as u32 + 1 + n as u32) % 32768) as u16
    }

    /// `ack_spec(r7, 2, n)`, by its closed form.
    fn level2(&self, n: u16) -> (r: u16)
        requires
            self.wf(),
            n < 32768,
        ensures
            r == ack_spec(self.r7 as nat, 2, n as nat),
            r < 32768,
    {
        proof {
            lemma_ack_level2(self.r7 as nat, n as nat);
            assert((n as int) * (self.r7 as int + 1) <= 32767 * 32768) by (nonlinear_arith)
                requires
                    n <= 32767,
                    self.r7 <= 32767,
            ;
        }
        ((n as u64 * (self.r7 as u64 + 1) + 2 * self.r7 as u64 + 1) % 32768) as u16
    }

    /// `ack_spec(r7, 3, n)`: one second-level evaluation per step.
    fn level3(&self, n: u16) -> (r: u16)
        requires
            self.wf(),
            n < 32768,
        ensures
            r == ack_spec(self.r7 as nat, 3, n as nat),
            r < 32768,
    {
        let mut cur = self.level2(self.r7);
        let mut i: u16 = 0;
        while i < n
            invariant
                self.wf(),
                i <= n,
                cur == ack_spec(self.r7 as nat, 3, i as nat),
                cur < 32768,
            decreases n - i,
        {
            let ghost prev = cur as nat;
            proof {
                lemma_ack_level2(self.r7 as nat, prev);
                assert((prev as int) * (self.r7 as int + 1) <= 32767 * 32768)
                    by (nonlinear_arith)
                    requires
                        prev <= 32767,
                        self.r7 <= 32767,
                ;
            }
            cur = ((cur as u64 * (self.r7 as u64 + 1) + 2 * self.r7 as u64 + 1) % 32768)
                as u16;
            i = i + 1;
        }
        cur
    }

    /// The value of the guest's recursive function at `(r0, r1)`, exactly
    /// `ack_spec`. The first four levels run as verified loops; higher
    /// levels recurse on the level below.
    pub fn ack(&self, r0: u16, r1: u16) -> (r: u16)
        requires
            self.wf(),
            r0 < 32768,
            r1 < 32768,
        ensures
            r == ack_spec(self.r7 as nat, r0 as nat, r1 as nat),
            r < 32768,
        decreases r0, r1,
    {
        if r0 == 0 {
            ((r1 as u32 + 1) % 32768) as u16
        } else if r0 == 1 {
            self.level1(r1)
        } else if r0 == 2 {
            self.level2(r1)
        } else if r0 == 3 {
            self.level3(r1)
        } else if r1 == 0 {
            self.ack(r0 - 1, self.r7)
        } else {
            let y = self.ack(r0, r1 - 1);
            self.ack(r0 - 1, y)
        }
    }
}

} // verus!
