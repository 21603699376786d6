//! Whole numbers of any size.
use vstd::arithmetic::power2::{lemma_pow2_adds, lemma_pow2_pos, pow2};
use vstd::prelude::*;

use crate::text::{decimal, digit_char};

verus! {

/// A whole number, in limbs of 32 bits from the lowest up.
pub struct Big {
    limbs: Vec<u32>,
}

/// How two numbers compare.
#[derive(Clone, Copy, Debug, PartialEq, Eq, Structural)]
pub enum Sides {
    Less,
    Equal,
    Greater,
}

/// The weight of limb `i`.
pub open spec fn weight(i: nat) -> nat {
    pow2(32 * i)
}

/// The limb at `i`, zero behind the last.
pub open spec fn limb(s: Seq<u32>, i: int) -> nat {
    if 0 <= i < s.len() {
        s[i] as nat
    } else {
        0
    }
}

/// What the limbs below `n` stand for.
pub open spec fn below_limb(s: Seq<u32>, n: nat) -> nat
    decreases n,
{
    if n == 0 {
        0
    } else {
        below_limb(s, (n - 1) as nat) + limb(s, n - 1) * weight((n - 1) as nat)
    }
}

proof fn lemma_weight_step(i: nat)
    ensures
        weight(i + 1) == weight(i) * 0x1_0000_0000,
        weight(i) > 0,
        weight(0) == 1,
{
    lemma_pow2_adds(32 * i, 32);
    lemma_pow2_pos(32 * i);
    vstd::arithmetic::power2::lemma2_to64();
}

/// Limbs that are the same stand for the same.
proof fn lemma_same_limbs(a: Seq<u32>, b: Seq<u32>, n: nat)
    requires
        forall|i: int| 0 <= i < n ==> #[trigger] limb(a, i) == limb(b, i),
    ensures
        below_limb(a, n) == below_limb(b, n),
    decreases n,
{
    if n > 0 {
        lemma_same_limbs(a, b, (n - 1) as nat);
    }
}

/// Behind the last limb nothing is added.
proof fn lemma_no_more(s: Seq<u32>, n: nat)
    requires
        n >= s.len(),
    ensures
        below_limb(s, n) == below_limb(s, s.len()),
    decreases n,
{
    if n > s.len() {
        lemma_no_more(s, (n - 1) as nat);
        let w = weight((n - 1) as nat);
        assert(0 * w == 0) by (nonlinear_arith);
    }
}

/// The limbs below one stand for less than its weight.
proof fn lemma_below_weight(s: Seq<u32>, n: nat)
    ensures
        below_limb(s, n) < weight(n),
    decreases n,
{
    lemma_weight_step(0);
    if n > 0 {
        lemma_below_weight(s, (n - 1) as nat);
        lemma_weight_step((n - 1) as nat);
        let w = weight((n - 1) as nat);
        let d = limb(s, n - 1);
        assert(d * w <= 0xffff_ffff * w) by (nonlinear_arith)
            requires
                d <= 0xffff_ffff,
        ;
    }
}

/// Ten to the `k`.
pub open spec fn ten_to(k: nat) -> nat
    decreases k,
{
    if k == 0 {
        1
    } else {
        10 * ten_to((k - 1) as nat)
    }
}

impl Big {
    /// The number.
    pub closed spec fn view(&self) -> nat {
        below_limb(self.limbs@, self.limbs@.len())
    }

    /// The number `n`.
    pub fn from_u32(n: u32) -> (big: Big)
        ensures
            big@ == n,
    {
        let mut limbs: Vec<u32> = Vec::new();
        limbs.push(n);
        proof {
            lemma_weight_step(0);
            reveal_with_fuel(below_limb, 2);
            let d = n as nat;
            assert(d * 1 == d);
        }
        Big { limbs }
    }

    /// The number times `factor`, and `more` on top.
    pub fn scaled(&self, factor: u32, more: u32) -> (big: Big)
        ensures
            big@ == self@ * factor + more,
    {
        let mut limbs: Vec<u32> = Vec::new();
        let mut carry: u32 = more;
        let ghost mine = self.limbs@;
        proof {
            lemma_weight_step(0);
            let (c, f) = (carry as nat, factor as nat);
            assert(0 * f == 0 && c * 1 == c) by (nonlinear_arith);
        }
        for i in 0..self.limbs.len()
            invariant
                mine == self.limbs@,
                limbs@.len() == i,
                below_limb(limbs@, i as nat) + carry * weight(i as nat) == below_limb(
                    mine,
                    i as nat,
                ) * factor + more,
        {
            let d: u32 = self.limbs[i];
            assert(d * factor <= 0xffff_ffff * 0xffff_ffff) by (nonlinear_arith)
                requires
                    d <= 0xffff_ffff,
                    factor <= 0xffff_ffff,
            ;
            let all: u64 = d as u64 * factor as u64 + carry as u64;
            let low: u32 = (all % 0x1_0000_0000) as u32;
            let high: u32 = (all / 0x1_0000_0000) as u32;
            let ghost before = limbs@;
            limbs.push(low);
            proof {
                assert forall|j: int| 0 <= j < i implies #[trigger] limb(before, j) == limb(
                    limbs@,
                    j,
                ) by {}
                lemma_same_limbs(before, limbs@, i as nat);
                lemma_weight_step(i as nat);
                let w = weight(i as nat);
                let (dd, f, c, l, h) = (d as nat, factor as nat, carry as nat, low as nat, high as nat);
                assert(dd * f + c == l + h * 0x1_0000_0000);
                assert(l * w + h * (w * 0x1_0000_0000) == c * w + (dd * w) * f) by (nonlinear_arith)
                    requires
                        dd * f + c == l + h * 0x1_0000_0000,
                ;
                let m = below_limb(mine, i as nat);
                assert((m + dd * w) * f == m * f + (dd * w) * f) by (nonlinear_arith);
            }
            carry = high;
        }
        let ghost before = limbs@;
        let ghost n = mine.len();
        proof {
            let w = weight(n);
            assert(0 * w == 0) by (nonlinear_arith);
        }
        if carry != 0 {
            limbs.push(carry);
            proof {
                assert forall|j: int| 0 <= j < n implies #[trigger] limb(before, j) == limb(
                    limbs@,
                    j,
                ) by {}
                lemma_same_limbs(before, limbs@, n);
            }
        }
        Big { limbs }
    }

    /// The number `n`.
    pub fn from_u64(n: u64) -> (big: Big)
        ensures
            big@ == n,
    {
        let high: u32 = (n / 0x1_0000_0000) as u32;
        let low: u32 = (n % 0x1_0000_0000) as u32;
        Big::from_u32(high).scaled(0x1_0000, 0).scaled(0x1_0000, low)
    }

    /// The number times two to the `k`.
    pub fn doubled(&self, k: u32) -> (big: Big)
        ensures
            big@ == self@ * pow2(k as nat),
    {
        let mut big: Big = self.scaled(1, 0);
        let mut left: u32 = k;
        proof {
            vstd::arithmetic::power2::lemma2_to64();
            let (v, p) = (self@, pow2(k as nat));
            assert(v * 1 == v && v * 1 * p == v * p);
        }
        while left >= 16
            invariant
                left <= k,
                big@ * pow2(left as nat) == self@ * pow2(k as nat),
            decreases left,
        {
            let ghost before = big@;
            big = big.scaled(0x1_0000, 0);
            proof {
                vstd::arithmetic::power2::lemma2_to64();
                lemma_pow2_adds((left - 16) as nat, 16);
                let p = pow2((left - 16) as nat);
                assert((before * 0x1_0000) * p == before * (p * 0x1_0000)) by (nonlinear_arith);
            }
            left = left - 16;
        }
        while left > 0
            invariant
                left <= k,
                big@ * pow2(left as nat) == self@ * pow2(k as nat),
            decreases left,
        {
            let ghost before = big@;
            big = big.scaled(2, 0);
            proof {
                vstd::arithmetic::power2::lemma2_to64();
                lemma_pow2_adds((left - 1) as nat, 1);
                let p = pow2((left - 1) as nat);
                assert((before * 2) * p == before * (p * 2)) by (nonlinear_arith);
            }
            left = left - 1;
        }
        proof {
            vstd::arithmetic::power2::lemma2_to64();
            let v = big@;
            assert(v * 1 == v);
        }
        big
    }

    /// The number with `k` zeros behind it.
    pub fn tenfold(&self, k: u128) -> (big: Big)
        ensures
            big@ == self@ * ten_to(k as nat),
    {
        let mut big: Big = self.scaled(1, 0);
        proof {
            let v = self@;
            assert(v * 1 == v);
        }
        let mut i: u128 = 0;
        while i < k
            invariant
                i <= k,
                big@ == self@ * ten_to(i as nat),
            decreases k - i,
        {
            proof {
                let (v, p) = (self@, ten_to(i as nat));
                assert((v * p) * 10 == v * (10 * p)) by (nonlinear_arith);
            }
            big = big.scaled(10, 0);
            i = i + 1;
        }
        big
    }

    /// How the number compares with another.
    pub fn beside(&self, other: &Big) -> (sides: Sides)
        ensures
            match sides {
                Sides::Less => self@ < other@,
                Sides::Equal => self@ == other@,
                Sides::Greater => self@ > other@,
            },
    {
        let (a, b) = (&self.limbs, &other.limbs);
        let n: usize = if a.len() > b.len() {
            a.len()
        } else {
            b.len()
        };
        proof {
            lemma_no_more(a@, n as nat);
            lemma_no_more(b@, n as nat);
        }
        let mut i: usize = n;
        while i > 0
            invariant
                i <= n,
                self@ - below_limb(a@, i as nat) == other@ - below_limb(b@, i as nat),
            decreases i,
        {
            i = i - 1;
            let d: u32 = if i < a.len() {
                a[i]
            } else {
                0
            };
            let e: u32 = if i < b.len() {
                b[i]
            } else {
                0
            };
            proof {
                lemma_below_weight(a@, i as nat);
                lemma_below_weight(b@, i as nat);
                let w = weight(i as nat);
                let (p, q) = (d as nat, e as nat);
                assert(p < q ==> p * w + w <= q * w) by (nonlinear_arith);
                assert(q < p ==> q * w + w <= p * w) by (nonlinear_arith);
            }
            if d < e {
                return Sides::Less;
            }
            if e < d {
                return Sides::Greater;
            }
        }
        Sides::Equal
    }

    /// The number divided by ten, cut off, and the digit that is left over.
    fn tenth(&self) -> (out: (Big, u32))
        ensures
            self@ == out.0@ * 10 + out.1,
            out.1 < 10,
            self@ > 0 ==> out.0@ < self@,
    {
        let ghost mine = self.limbs@;
        let n: usize = self.limbs.len();
        let mut limbs: Vec<u32> = Vec::new();
        for i in 0..n
            invariant
                limbs@.len() == i,
                n == self.limbs@.len(),
        {
            limbs.push(0);
        }
        let mut rest: u32 = 0;
        let mut i: usize = n;
        proof {
            let w = weight(n as nat);
            assert(0 * w == 0) by (nonlinear_arith);
        }
        while i > 0
            invariant
                i <= n == mine.len(),
                mine == self.limbs@,
                limbs@.len() == n,
                rest < 10,
                below_limb(mine, n as nat) - below_limb(mine, i as nat) == 10 * (below_limb(
                    limbs@,
                    n as nat,
                ) - below_limb(limbs@, i as nat)) + rest * weight(i as nat),
            decreases i,
        {
            i = i - 1;
            let all: u64 = rest as u64 * 0x1_0000_0000 + self.limbs[i] as u64;
            let q: u32 = (all / 10) as u32;
            let ghost before = limbs@;
            limbs.set(i, q);
            proof {
                lemma_high_limbs(before, limbs@, i as nat, n as nat);
                lemma_weight_step(i as nat);
                let w = weight(i as nat);
                let (r, d, qq, s) = (
                    rest as nat,
                    mine[i as int] as nat,
                    q as nat,
                    (all % 10) as nat,
                );
                assert(r * 0x1_0000_0000 + d == qq * 10 + s);
                assert(r * (w * 0x1_0000_0000) + d * w == 10 * (qq * w) + s * w) by (nonlinear_arith)
                    requires
                        r * 0x1_0000_0000 + d == qq * 10 + s,
                ;
            }
            rest = (all % 10) as u32;
        }
        proof {
            lemma_weight_step(0);
            let r = rest as nat;
            assert(r * 1 == r);
        }
        (Big { limbs }, rest)
    }

    /// Whether the number has one digit, and the digit.
    fn single_digit(&self) -> (out: Option<u32>)
        ensures
            match out {
                Some(d) => d < 10 && self@ == d,
                None => self@ >= 10,
            },
    {
        if self.limbs.len() == 0 {
            return Some(0);
        }
        proof {
            lemma_weight_step(0);
            reveal_with_fuel(below_limb, 2);
            let d = limb(self.limbs@, 0);
            assert(d * 1 == d);
        }
        for i in 1..self.limbs.len()
            invariant
                self.limbs@.len() > 0,
                below_limb(self.limbs@, i as nat) == self.limbs@[0],
        {
            if self.limbs[i] != 0 {
                proof {
                    lemma_big_limb(self.limbs@, i as nat, self.limbs@.len());
                }
                return None;
            }
            proof {
                let w = weight(i as nat);
                assert(0 * w == 0) by (nonlinear_arith);
            }
        }
        if self.limbs[0] < 10 {
            Some(self.limbs[0])
        } else {
            None
        }
    }

    /// Appends the decimal numeral of the number.
    pub fn push_decimal(&self, out: &mut String)
        ensures
            final(out)@ == old(out)@ + decimal(self@),
        decreases self@,
    {
        let ghost start = out@;
        match self.single_digit() {
            Some(d) => {
                out.push((48u8 + d as u8) as char);
                assert(out@ =~= start + seq![digit_char(d as nat)]);
            },
            None => {
                let (q, d) = self.tenth();
                q.push_decimal(out);
                out.push((48u8 + d as u8) as char);
                assert(self@ / 10 == q@ && self@ % 10 == d);
                assert(out@ =~= start + decimal(self@));
            },
        }
    }
}

/// Setting a limb leaves what those above it stand for.
proof fn lemma_high_limbs(a: Seq<u32>, b: Seq<u32>, i: nat, n: nat)
    requires
        i < n,
        forall|j: int| i < j < n ==> #[trigger] limb(a, j) == limb(b, j),
    ensures
        below_limb(a, n) - below_limb(a, i + 1) == below_limb(b, n) - below_limb(b, i + 1),
    decreases n,
{
    if n > i + 1 {
        lemma_high_limbs(a, b, i, (n - 1) as nat);
        assert(limb(a, n - 1) == limb(b, n - 1));
    }
}

/// A number with a limb above the lowest is great.
proof fn lemma_big_limb(s: Seq<u32>, i: nat, n: nat)
    requires
        0 < i < n,
        limb(s, i as int) > 0,
    ensures
        below_limb(s, n) >= 0x1_0000_0000,
    decreases n,
{
    if n == i + 1 {
        lemma_weight_step((i - 1) as nat);
        let (w, v, d) = (weight(i), weight((i - 1) as nat), limb(s, i as int));
        assert(d * w >= 0x1_0000_0000) by (nonlinear_arith)
            requires
                d >= 1,
                w == v * 0x1_0000_0000,
                v >= 1,
        ;
    } else {
        lemma_big_limb(s, i, (n - 1) as nat);
    }
}

} // verus!
