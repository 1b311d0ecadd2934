//! Fixed-point decimal amounts.
//!
//! Every monetary quantity is a signed count of ten-thousandths, so four
//! fractional decimal digits are exact and no binary floating point is ever
//! involved. The backing integer is `i128`, which leaves ample room for sums
//! of balances far beyond the parseable range.

use vstd::prelude::*;

verus! {

/// Number of units per whole currency unit: amounts carry four fractional
/// decimal digits.
pub const AMOUNT_SCALE: i128 = 10_000;

/// Bound enforced on every stored balance (in units). The engine refuses to
/// move a balance outside `[-BALANCE_LIMIT, BALANCE_LIMIT]`, which keeps all
/// of its arithmetic far away from `i128` overflow while still covering
/// sums of balances with more than 10^30 whole currency units.
pub const BALANCE_LIMIT: i128 = 100_000_000_000_000_000_000_000_000_000_000_000;

/// Largest integer part accepted when parsing a decimal string: 10^18.
pub const MAX_INTEGER_PART: u64 = 1_000_000_000_000_000_000;

/// A signed fixed-point decimal amount: `units` ten-thousandths.
#[derive(Clone, Copy, Debug, PartialEq, Eq, Structural, Hash)]
pub struct Amount {
    pub units: i128,
}

impl View for Amount {
    type V = int;

    open spec fn view(&self) -> int {
        self.units as int
    }
}

/// Whether a (mathematical) amount value is within the range the engine
/// allows for stored balances.
pub open spec fn in_range(v: int) -> bool {
    -BALANCE_LIMIT <= v && v <= BALANCE_LIMIT
}

/// Decimal digits of `n`, most significant first.
pub open spec fn dec_digits(n: nat) -> Seq<u8>
    decreases n,
{
    if n < 10 {
        seq![(48 + n) as u8]
    } else {
        dec_digits(n / 10).push((48 + n % 10) as u8)
    }
}

/// The digit string with trailing zero digits removed.
pub open spec fn strip_zeros(s: Seq<u8>) -> Seq<u8>
    decreases s.len(),
{
    if s.len() > 0 && s.last() == 48 {
        strip_zeros(s.drop_last())
    } else {
        s
    }
}

/// The four fractional digits of `f` (which is below 10000), zero padded.
pub open spec fn frac4(f: nat) -> Seq<u8> {
    let d4 = f % 10;
    let q1 = f / 10;
    let d3 = q1 % 10;
    let q2 = q1 / 10;
    let d2 = q2 % 10;
    let d1 = q2 / 10;
    seq![(48 + d1) as u8, (48 + d2) as u8, (48 + d3) as u8, (48 + d4) as u8]
}

/// The canonical decimal rendering of an amount value: optional minus
/// sign, integer digits, and a fractional part only when it is nonzero,
/// without trailing zero digits.
pub open spec fn amount_bytes(v: int) -> Seq<u8> {
    let m = if v >= 0 {
        v
    } else {
        -v
    };
    let ip = m / 10_000;
    let fp = m % 10_000;
    let core = dec_digits(ip as nat) + (if fp == 0 {
        Seq::<u8>::empty()
    } else {
        seq![46u8] + strip_zeros(frac4(fp as nat))
    });
    if v < 0 {
        seq![45u8] + core
    } else {
        core
    }
}

/// Append the decimal digits of `n` to `out`.
fn push_dec_digits(n: u128, out: &mut Vec<u8>)
    ensures
        final(out)@ == old(out)@ + dec_digits(n as nat),
    decreases n,
{
    if n < 10 {
        out.push(48 + n as u8);
        proof {
            assert(out@ =~= old(out)@ + dec_digits(n as nat));
        }
    } else {
        push_dec_digits(n / 10, out);
        out.push(48 + (n % 10) as u8);
        proof {
            assert(out@ =~= old(out)@ + dec_digits(n as nat));
        }
    }
}

impl Amount {
    /// The zero amount.
    pub fn zero() -> (r: Amount)
        ensures
            r@ == 0,
    {
        Amount { units: 0 }
    }

    /// An amount holding exactly `units` ten-thousandths.
    pub fn from_units(units: i128) -> (r: Amount)
        ensures
            r@ == units,
    {
        Amount { units }
    }

    /// Exact addition.
    pub fn add(self, other: Amount) -> (r: Amount)
        requires
            i128::MIN <= self@ + other@ <= i128::MAX,
        ensures
            r@ == self@ + other@,
    {
        Amount { units: self.units + other.units }
    }

    /// Exact subtraction.
    pub fn sub(self, other: Amount) -> (r: Amount)
        requires
            i128::MIN <= self@ - other@ <= i128::MAX,
        ensures
            r@ == self@ - other@,
    {
        Amount { units: self.units - other.units }
    }

    /// Exact negation.
    pub fn neg(self) -> (r: Amount)
        requires
            self@ != i128::MIN,
        ensures
            r@ == -self@,
    {
        Amount { units: -self.units }
    }

    /// `self <= other`.
    pub fn le(&self, other: &Amount) -> (r: bool)
        ensures
            r == (self@ <= other@),
    {
        self.units <= other.units
    }

    /// `self < other`.
    pub fn lt(&self, other: &Amount) -> (r: bool)
        ensures
            r == (self@ < other@),
    {
        self.units < other.units
    }

    /// `self >= other`.
    pub fn ge(&self, other: &Amount) -> (r: bool)
        ensures
            r == (self@ >= other@),
    {
        self.units >= other.units
    }

    /// Whether the amount lies in the range allowed for stored balances.
    pub fn is_in_range(&self) -> (r: bool)
        ensures
            r == in_range(self@),
    {
        -BALANCE_LIMIT <= self.units && self.units <= BALANCE_LIMIT
    }

    /// The canonical decimal rendering, as ASCII bytes: no gratuitous
    /// trailing zeros, no fractional part when it would be zero.
    pub fn to_decimal_bytes(&self) -> (r: Vec<u8>)
        ensures
            r@ == amount_bytes(self@),
    {
        let neg = self.units < 0;
        let m: u128 = if self.units >= 0 {
            self.units as u128
        } else {
            ((-(self.units + 1)) as u128) + 1
        };
        proof {
            assert(m as int == (if self@ >= 0 {
                self@
            } else {
                -self@
            }));
        }
        let ip = m / 10_000;
        let fp = m % 10_000;
        let mut out: Vec<u8> = Vec::new();
        if neg {
            out.push(45);
        }
        push_dec_digits(ip, &mut out);
        if fp != 0 {
            out.push(46);
            let d4 = (fp % 10) as u8;
            let q1 = fp / 10;
            let d3 = (q1 % 10) as u8;
            let q2 = q1 / 10;
            let d2 = (q2 % 10) as u8;
            let d1 = (q2 / 10) as u8;
            let ghost fr = frac4(fp as nat);
            proof {
                assert(fr =~= seq![(48 + d1) as u8, (48 + d2) as u8, (48 + d3) as u8, (
                48 + d4) as u8]);
            }
            out.push(48 + d1);
            if !(d4 == 0 && d3 == 0 && d2 == 0) {
                out.push(48 + d2);
                if !(d4 == 0 && d3 == 0) {
                    out.push(48 + d3);
                    if d4 != 0 {
                        out.push(48 + d4);
                        proof {
                            assert(strip_zeros(fr) =~= fr);
                        }
                    } else {
                        proof {
                            reveal_with_fuel(strip_zeros, 5);
                            assert(fr.drop_last() =~= seq![(48 + d1) as u8, (48 + d2) as u8, (
                            48 + d3) as u8]);
                            assert(strip_zeros(fr) =~= fr.drop_last());
                        }
                    }
                } else {
                    proof {
                        reveal_with_fuel(strip_zeros, 5);
                        let s3 = seq![(48 + d1) as u8, (48 + d2) as u8, (48 + d3) as u8];
                        assert(fr.drop_last() =~= s3);
                        assert(s3.drop_last() =~= seq![(48 + d1) as u8, (48 + d2) as u8]);
                        assert(strip_zeros(fr) =~= seq![(48 + d1) as u8, (48 + d2) as u8]);
                    }
                }
            } else {
                proof {
                    reveal_with_fuel(strip_zeros, 5);
                    let s3 = seq![(48 + d1) as u8, (48 + d2) as u8, (48 + d3) as u8];
                    let s2 = seq![(48 + d1) as u8, (48 + d2) as u8];
                    let s1 = seq![(48 + d1) as u8];
                    assert(fr.drop_last() =~= s3);
                    assert(s3.drop_last() =~= s2);
                    assert(s2.drop_last() =~= s1);
                    assert(d1 != 0);
                    assert(strip_zeros(fr) =~= s1);
                }
            }
        }
        proof {
            assert(out@ =~= amount_bytes(self@));
        }
        out
    }
}

} // verus!
