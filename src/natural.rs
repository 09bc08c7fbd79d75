//! Natural numbers of any size, as little-endian vectors of 64-bit limbs.
use vstd::prelude::*;

verus! {

/// `b` to the power `e`.
pub open spec fn power(b: int, e: nat) -> int
    decreases e,
{
    if e == 0 {
        1
    } else {
        b * power(b, (e - 1) as nat)
    }
}

/// The base of one limb.
pub open spec fn limb_base() -> int {
    0x1_0000_0000_0000_0000
}

/// Limb `i` of `s`, or zero past its end.
pub open spec fn limb(s: Seq<u64>, i: int) -> int {
    if 0 <= i < s.len() {
        s[i] as int
    } else {
        0
    }
}

/// The value of the `i` least significant limbs of `s`.
pub open spec fn prefix_value(s: Seq<u64>, i: nat) -> int
    decreases i,
{
    if i == 0 {
        0
    } else {
        prefix_value(s, (i - 1) as nat) + limb(s, i - 1) * power(limb_base(), (i - 1) as nat)
    }
}

/// The number that the limbs `s` write.
pub open spec fn value(s: Seq<u64>) -> int {
    prefix_value(s, s.len())
}

pub proof fn lemma_power_positive(b: int, e: nat)
    requires
        b > 0,
    ensures
        power(b, e) > 0,
    decreases e,
{
    if e > 0 {
        lemma_power_positive(b, (e - 1) as nat);
        assert(b * power(b, (e - 1) as nat) > 0) by (nonlinear_arith)
            requires
                b > 0,
                power(b, (e - 1) as nat) > 0,
        ;
    }
}

proof fn lemma_prefix_past_end(s: Seq<u64>, i: nat)
    requires
        i >= s.len(),
    ensures
        prefix_value(s, i) == value(s),
    decreases i,
{
    if i > s.len() {
        lemma_prefix_past_end(s, (i - 1) as nat);
    }
}

proof fn lemma_prefix_push(s: Seq<u64>, x: u64, i: nat)
    requires
        i <= s.len(),
    ensures
        prefix_value(s.push(x), i) == prefix_value(s, i),
    decreases i,
{
    if i > 0 {
        lemma_prefix_push(s, x, (i - 1) as nat);
    }
}

/// The limbs of a single machine integer.
pub fn from_u64(x: u64) -> (r: Vec<u64>)
    ensures
        value(r@) == x,
{
    let r = vec![x];
    assert(value(r@) == prefix_value(r@, 0) + limb(r@, 0) * power(limb_base(), 0));
    r
}

/// `a` times `m`.
pub fn mul_small(a: &Vec<u64>, m: u64) -> (r: Vec<u64>)
    ensures
        value(r@) == value(a@) * m,
{
    let mut r: Vec<u64> = Vec::new();
    let mut carry: u64 = 0;
    let mut i: usize = 0;
    while i < a.len()
        invariant
            i <= a@.len(),
            r@.len() == i,
            prefix_value(r@, i as nat) + carry * power(limb_base(), i as nat) == prefix_value(
                a@,
                i as nat,
            ) * m,
        decreases a@.len() - i,
    {
        let x: u128 = a[i] as u128;
        let y: u128 = m as u128;
        assert(x * y <= 0xffff_ffff_ffff_ffff * 0xffff_ffff_ffff_ffff) by (nonlinear_arith)
            requires
                x <= 0xffff_ffff_ffff_ffff,
                y <= 0xffff_ffff_ffff_ffff,
        ;
        let t: u128 = x * y + carry as u128;
        let lo: u64 = (t % 0x1_0000_0000_0000_0000) as u64;
        let hi: u64 = (t / 0x1_0000_0000_0000_0000) as u64;
        let ghost old_r = r@;
        let ghost p = power(limb_base(), i as nat);
        r.push(lo);
        proof {
            lemma_prefix_push(old_r, lo, i as nat);
            assert(limb(r@, i as int) == lo);
            assert(t == lo + hi * limb_base());
            assert(power(limb_base(), (i + 1) as nat) == limb_base() * p);
            assert(lo * p + hi * (limb_base() * p) == t * p) by (nonlinear_arith)
                requires
                    t == lo + hi * limb_base(),
            ;
            assert(t * p == carry * p + (a@[i as int] * m) * p) by (nonlinear_arith)
                requires
                    t == a@[i as int] * m + carry,
            ;
            assert(limb(a@, i as int) == a@[i as int]);
            assert((prefix_value(a@, i as nat) + a@[i as int] * p) * m == prefix_value(a@, i as nat)
                * m + (a@[i as int] * m) * p) by (nonlinear_arith);
        }
        carry = hi;
        i = i + 1;
    }
    let ghost old_r = r@;
    r.push(carry);
    proof {
        lemma_prefix_push(old_r, carry, i as nat);
        assert(limb(r@, i as int) == carry);
    }
    r
}

/// Whether `a` is at least `b`.
pub fn ge(a: &Vec<u64>, b: &Vec<u64>) -> (r: bool)
    ensures
        r == (value(a@) >= value(b@)),
{
    let n = if a.len() >= b.len() {
        a.len()
    } else {
        b.len()
    };
    let mut borrow: u64 = 0;
    let mut i: usize = 0;
    while i < n
        invariant
            i <= n,
            n >= a@.len(),
            n >= b@.len(),
            borrow <= 1,
            0 <= prefix_value(a@, i as nat) - prefix_value(b@, i as nat) + borrow * power(
                limb_base(),
                i as nat,
            ) < power(limb_base(), i as nat),
        decreases n - i,
    {
        let x: u64 = if i < a.len() {
            a[i]
        } else {
            0
        };
        let y: u64 = if i < b.len() {
            b[i]
        } else {
            0
        };
        let ghost p = power(limb_base(), i as nat);
        let ghost old_acc = prefix_value(a@, i as nat) - prefix_value(b@, i as nat) + borrow * p;
        let ghost d: int;
        let next: u64 = if (x as u128) >= (y as u128) + (borrow as u128) {
            proof {
                d = x - y - borrow;
            }
            0
        } else {
            proof {
                d = x + limb_base() - y - borrow;
            }
            1
        };
        proof {
            assert(limb(a@, i as int) == x);
            assert(limb(b@, i as int) == y);
            assert(power(limb_base(), (i + 1) as nat) == limb_base() * p);
            assert(0 <= d < limb_base());
            assert(d == x - y - borrow + next * limb_base());
            assert(old_acc + (x - y) * p - borrow * p + next * (limb_base() * p) == old_acc + d
                * p) by (nonlinear_arith)
                requires
                    d == x - y - borrow + next * limb_base(),
            ;
            assert(0 <= old_acc + d * p < limb_base() * p) by (nonlinear_arith)
                requires
                    0 <= old_acc < p,
                    0 <= d < limb_base(),
            ;
        }
        proof {
            assert(prefix_value(a@, (i + 1) as nat) == prefix_value(a@, i as nat) + x * p);
            assert(prefix_value(b@, (i + 1) as nat) == prefix_value(b@, i as nat) + y * p);
            assert(prefix_value(a@, i as nat) + x * p - (prefix_value(b@, i as nat) + y * p) + next
                * (limb_base() * p) == old_acc + (x - y) * p - borrow * p + next * (limb_base() * p))
                by (nonlinear_arith)
                requires
                    old_acc == prefix_value(a@, i as nat) - prefix_value(b@, i as nat) + borrow * p,
            ;
        }
        borrow = next;
        i = i + 1;
    }
    proof {
        lemma_prefix_past_end(a@, n as nat);
        lemma_prefix_past_end(b@, n as nat);
    }
    borrow == 0
}

} // verus!
