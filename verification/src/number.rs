//! Fractional literals, kept exactly as decimal numbers.

use crate::text::{decimal, digit_char, push_decimal};
use vstd::prelude::*;

verus! {

/// A decimal number `whole + frac / 10^places`.
///
/// A literal is held in canonical form (see [`canonical`]), so that two
/// literals that denote the same number are equal field by field.
#[derive(Clone, Copy, Debug, PartialEq, Eq, Structural)]
pub struct Decimal {
    pub whole: u64,
    pub frac: u64,
    pub places: usize,
}

/// The canonical form of `whole + frac / 10^places`: trailing zeros of the
/// fraction are dropped, one decimal place with each.
pub open spec fn canonical(whole: u64, frac: u64, places: usize) -> Decimal
    decreases places,
{
    if places > 0 && frac % 10 == 0 {
        canonical(whole, frac / 10, (places - 1) as usize)
    } else {
        Decimal { whole, frac, places }
    }
}

/// The last `places` decimal digits of `frac`, zeros in front where it has
/// fewer.
pub open spec fn fraction_text(frac: nat, places: nat) -> Seq<char>
    decreases places,
{
    if places == 0 {
        Seq::empty()
    } else {
        fraction_text(frac / 10, (places - 1) as nat).push(digit_char((frac % 10) as int))
    }
}

/// Ten to the power `n`.
pub open spec fn pow10(n: nat) -> nat
    decreases n,
{
    if n == 0 {
        1
    } else {
        10 * pow10((n - 1) as nat)
    }
}

impl Decimal {
    /// No trailing zero is left to drop.
    pub open spec fn is_canonical(self) -> bool {
        self.places == 0 || self.frac % 10 != 0
    }

    /// The fraction is below one: `frac` has no more digits than `places`.
    pub open spec fn is_proper(self) -> bool {
        self.frac < pow10(self.places as nat)
    }

    /// The number, scaled up by `10^places` to an integer.
    pub open spec fn scaled(self) -> nat {
        self.whole as nat * pow10(self.places as nat) + self.frac as nat
    }

    /// Both denote the same number.
    pub open spec fn same_number(self, other: Decimal) -> bool {
        self.scaled() * pow10(other.places as nat) == other.scaled() * pow10(self.places as nat)
    }

    /// How the number is written out: the whole part, a point, and the
    /// fraction digits (a single `0` where there are none).
    pub open spec fn text(self) -> Seq<char> {
        decimal(self.whole as nat) + seq!['.'] + if self.places == 0 {
            seq!['0']
        } else {
            fraction_text(self.frac as nat, self.places as nat)
        }
    }

    /// The canonical form of `whole + frac / 10^places`.
    pub fn new(whole: u64, frac: u64, places: usize) -> (d: Decimal)
        ensures
            d == canonical(whole, frac, places),
            d.is_canonical(),
    {
        let mut f = frac;
        let mut p = places;
        while p > 0 && f % 10 == 0
            invariant
                canonical(whole, f, p) == canonical(whole, frac, places),
            decreases p,
        {
            f = f / 10;
            p = p - 1;
        }
        Decimal { whole, frac: f, places: p }
    }

    /// Appends [`Decimal::text`] to `s`.
    pub fn push_text(&self, s: &mut String)
        ensures
            final(s)@ == old(s)@ + self.text(),
    {
        push_decimal(s, self.whole);
        s.push('.');
        if self.places == 0 {
            s.push('0');
            assert((old(s)@ + decimal(self.whole as nat)).push('.').push('0') =~= old(s)@
                + self.text());
        } else {
            let mut digits: Vec<u64> = Vec::new();
            let mut rest = self.frac;
            let mut k: usize = 0;
            while k < self.places
                invariant
                    k <= self.places,
                    digits.len() == k,
                    forall|j: int| 0 <= j < k ==> digits[j] < 10,
                    fraction_text(self.frac as nat, self.places as nat) == fraction_text(
                        rest as nat,
                        (self.places - k) as nat,
                    ) + Seq::new(k as nat, |j: int| digit_char(digits[k - 1 - j] as int)),
                decreases self.places - k,
            {
                let ghost before = Seq::new(k as nat, |j: int| digit_char(digits[k - 1 - j] as int));
                digits.push(rest % 10);
                let ghost low = rest % 10;
                rest = rest / 10;
                k = k + 1;
                assert(Seq::new(k as nat, |j: int| digit_char(digits[k - 1 - j] as int)) =~= seq![
                    digit_char(low as int),
                ] + before);
                assert(fraction_text(rest as nat, (self.places - k) as nat).push(
                    digit_char(low as int),
                ) + before =~= fraction_text(rest as nat, (self.places - k) as nat) + (seq![
                    digit_char(low as int),
                ] + before));
            }
            let ghost start = s@;
            let ghost tail = Seq::new(k as nat, |j: int| digit_char(digits[k - 1 - j] as int));
            assert(fraction_text(self.frac as nat, self.places as nat) =~= tail);
            let mut i: usize = k;
            while i > 0
                invariant
                    i <= k,
                    k == digits.len(),
                    forall|j: int| 0 <= j < k ==> digits[j] < 10,
                    tail == Seq::new(k as nat, |j: int| digit_char(digits[k - 1 - j] as int)),
                    s@ == start + tail.subrange(0, k - i),
                decreases i,
            {
                i = i - 1;
                s.push(crate::text::digit(digits[i]));
                assert(start + tail.subrange(0, k - i) =~= (start + tail.subrange(0, k - i - 1)).push(
                    tail[k - i - 1],
                ));
            }
            assert(tail.subrange(0, k as int) =~= tail);
            assert(start + tail =~= old(s)@ + self.text());
        }
    }
}

/// A power of ten is positive.
proof fn lemma_pow10_positive(n: nat)
    ensures
        pow10(n) > 0,
    decreases n,
{
    if n > 0 {
        lemma_pow10_positive((n - 1) as nat);
    }
}

/// Powers of ten multiply by adding their exponents.
proof fn lemma_pow10_add(a: nat, b: nat)
    ensures
        pow10(a + b) == pow10(a) * pow10(b),
    decreases b,
{
    if b > 0 {
        lemma_pow10_add(a, (b - 1) as nat);
        assert(pow10(a + b) == 10 * pow10((a + b - 1) as nat));
        assert(10 * (pow10(a) * pow10((b - 1) as nat)) == pow10(a) * (10 * pow10((b - 1) as nat)))
            by (nonlinear_arith);
    } else {
        assert(pow10(a) * 1 == pow10(a)) by (nonlinear_arith);
    }
}

/// The canonical form is canonical: it has the same whole part, and its
/// fraction is the given one without its trailing zeros.
pub proof fn lemma_canonical(whole: u64, frac: u64, places: usize)
    ensures
        canonical(whole, frac, places).is_canonical(),
        canonical(whole, frac, places).whole == whole,
        canonical(whole, frac, places).places <= places,
        canonical(whole, frac, places).frac * pow10(
            (places - canonical(whole, frac, places).places) as nat,
        ) == frac,
        (Decimal { whole, frac, places }).is_proper() ==> canonical(
            whole,
            frac,
            places,
        ).is_proper(),
    decreases places,
{
    if places > 0 && frac % 10 == 0 {
        let c = canonical(whole, frac, places);
        lemma_canonical(whole, frac / 10, (places - 1) as usize);
        let d = pow10((places - 1 - c.places) as nat);
        assert(pow10((places - c.places) as nat) == 10 * d);
        assert(c.frac * (10 * d) == 10 * (c.frac * d)) by (nonlinear_arith);
    } else {
        assert(frac * 1 == frac) by (nonlinear_arith);
    }
}

/// The canonical form denotes the number it was made from.
pub proof fn lemma_canonical_same_number(whole: u64, frac: u64, places: usize)
    ensures
        canonical(whole, frac, places).same_number(Decimal { whole, frac, places }),
{
    let c = canonical(whole, frac, places);
    lemma_canonical(whole, frac, places);
    let pc = pow10(c.places as nat);
    let d = pow10((places - c.places) as nat);
    let pp = pow10(places as nat);
    lemma_pow10_add(c.places as nat, (places - c.places) as nat);
    let w = whole as nat;
    let cf = c.frac as nat;
    let f = frac as nat;
    assert((w * pc + cf) * pp == (w * pp + f) * pc) by (nonlinear_arith)
        requires
            pp == pc * d,
            cf * d == f,
    ;
}

/// As `lemma_same_number_same_decimal`, for `a` with no more places than
/// `b`.
proof fn lemma_same_number_ordered(a: Decimal, b: Decimal)
    requires
        a.is_canonical(),
        b.is_canonical(),
        a.is_proper(),
        b.is_proper(),
        a.same_number(b),
        a.places <= b.places,
    ensures
        a == b,
{
    let pa = pow10(a.places as nat);
    let pb = pow10(b.places as nat);
    let d = pow10((b.places - a.places) as nat);
    lemma_pow10_add(a.places as nat, (b.places - a.places) as nat);
    lemma_pow10_positive(a.places as nat);
    let aw = a.whole as nat;
    let af = a.frac as nat;
    let bw = b.whole as nat;
    let bf = b.frac as nat;
    assert((aw * pa + af) * d == bw * pb + bf) by (nonlinear_arith)
        requires
            (aw * pa + af) * pb == (bw * pb + bf) * pa,
            pb == pa * d,
            pa > 0,
    ;
    if a.places < b.places {
        let d1 = pow10((b.places - a.places - 1) as nat);
        let pb1 = pow10((b.places - 1) as nat);
        assert(d == 10 * d1);
        assert(pb == 10 * pb1);
        let k = (aw * pa + af) * d1 - bw * pb1;
        assert(bf == 10 * k) by (nonlinear_arith)
            requires
                (aw * pa + af) * (10 * d1) == bw * (10 * pb1) + bf,
                k == (aw * pa + af) * d1 - bw * pb1,
        ;
        assert(false);
    } else {
        assert(d == 1);
        assert(aw == bw && af == bf) by (nonlinear_arith)
            requires
                (aw * pa + af) * 1 == bw * pa + bf,
                af < pa,
                bf < pa,
        ;
    }
}

/// Two canonical decimals that denote the same number are the same decimal:
/// on canonical decimals, equality of the fields is equality of the numbers.
pub proof fn lemma_same_number_same_decimal(a: Decimal, b: Decimal)
    requires
        a.is_canonical(),
        b.is_canonical(),
        a.is_proper(),
        b.is_proper(),
        a.same_number(b),
    ensures
        a == b,
{
    if a.places <= b.places {
        lemma_same_number_ordered(a, b);
    } else {
        lemma_same_number_ordered(b, a);
    }
}

} // verus!
