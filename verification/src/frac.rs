use vstd::prelude::*;
use vstd::string::StringExecFns;

verus! {

/// An exact nonnegative rational number, kept as a numerator and a positive
/// denominator.  Merge heights are held this way so that linkage arithmetic,
/// comparisons, and the rendered height labels are all exact.
pub struct Frac {
    pub num: u64,
    pub den: u64,
}

/// `an/ad <= bn/bd`, stated by cross multiplication (for positive denominators).
pub open spec fn frac_le(an: int, ad: int, bn: int, bd: int) -> bool {
    an * bd <= bn * ad
}

/// `an/ad < bn/bd`, stated by cross multiplication (for positive denominators).
pub open spec fn frac_lt(an: int, ad: int, bn: int, bd: int) -> bool {
    an * bd < bn * ad
}

impl Frac {
    pub open spec fn wf(self) -> bool {
        self.den >= 1
    }

    pub open spec fn le_spec(self, other: Frac) -> bool {
        frac_le(self.num as int, self.den as int, other.num as int, other.den as int)
    }

    pub open spec fn lt_spec(self, other: Frac) -> bool {
        frac_lt(self.num as int, self.den as int, other.num as int, other.den as int)
    }

    /// Exact strict comparison of two rationals.
    pub fn lt(&self, other: &Frac) -> (r: bool)
        ensures
            r == self.lt_spec(*other),
    {
        proof {
            lemma_u64_mul_fits(self.num as int, other.den as int);
            lemma_u64_mul_fits(other.num as int, self.den as int);
        }
        (self.num as u128) * (other.den as u128) < (other.num as u128) * (self.den as u128)
    }
}

/// The product of two values below `2^64` fits in a `u128`.
pub proof fn lemma_u64_mul_fits(a: int, b: int)
    by (nonlinear_arith)
    requires
        0 <= a <= 0xFFFF_FFFF_FFFF_FFFF,
        0 <= b <= 0xFFFF_FFFF_FFFF_FFFF,
    ensures
        0 <= a * b <= 0xFFFF_FFFF_FFFF_FFFF_FFFF_FFFF_FFFF_FFFF,
{
}

/// Greatest common divisor by Euclid's rule; `spec_gcd(a, 0) == a`.
pub open spec fn spec_gcd(a: nat, b: nat) -> nat
    decreases b,
{
    if b == 0 {
        a
    } else {
        spec_gcd(b, a % b)
    }
}

pub proof fn lemma_gcd_pos(a: nat, b: nat)
    requires
        b > 0,
    ensures
        spec_gcd(a, b) > 0,
    decreases b,
{
    if a % b == 0 {
        assert(spec_gcd(a, b) == spec_gcd(b, a % b));
        assert(spec_gcd(b, 0) == b);
    } else {
        lemma_gcd_pos(b, a % b);
    }
}

pub fn gcd_u64(a: u64, b: u64) -> (r: u64)
    ensures
        r as nat == spec_gcd(a as nat, b as nat),
    decreases b,
{
    if b == 0 {
        a
    } else {
        gcd_u64(b, a % b)
    }
}

/// The character for one decimal digit.
pub open spec fn digit_char(d: int) -> char {
    if d == 0 {
        '0'
    } else if d == 1 {
        '1'
    } else if d == 2 {
        '2'
    } else if d == 3 {
        '3'
    } else if d == 4 {
        '4'
    } else if d == 5 {
        '5'
    } else if d == 6 {
        '6'
    } else if d == 7 {
        '7'
    } else if d == 8 {
        '8'
    } else {
        '9'
    }
}

/// The usual decimal digit string of a natural number, most significant first.
pub open spec fn dec_str(n: nat) -> Seq<char>
    decreases n,
{
    if n < 10 {
        seq![digit_char(n as int)]
    } else {
        dec_str(n / 10) + seq![digit_char((n % 10) as int)]
    }
}

fn digit_text(d: u64) -> (r: String)
    requires
        d < 10,
    ensures
        r@ == seq![digit_char(d as int)],
{
    let s: &str = if d == 0 {
        "0"
    } else if d == 1 {
        "1"
    } else if d == 2 {
        "2"
    } else if d == 3 {
        "3"
    } else if d == 4 {
        "4"
    } else if d == 5 {
        "5"
    } else if d == 6 {
        "6"
    } else if d == 7 {
        "7"
    } else if d == 8 {
        "8"
    } else {
        "9"
    };
    proof {
        reveal_strlit("0");
        reveal_strlit("1");
        reveal_strlit("2");
        reveal_strlit("3");
        reveal_strlit("4");
        reveal_strlit("5");
        reveal_strlit("6");
        reveal_strlit("7");
        reveal_strlit("8");
        reveal_strlit("9");
        assert(s@ =~= seq![digit_char(d as int)]);
    }
    String::from_str(s)
}

/// Decimal text of a `u64`.
pub fn u64_text(n: u64) -> (r: String)
    ensures
        r@ == dec_str(n as nat),
    decreases n,
{
    if n < 10 {
        digit_text(n)
    } else {
        let mut s = u64_text(n / 10);
        let d = digit_text(n % 10);
        s.append(d.as_str());
        proof {
            assert(s@ =~= dec_str(n as nat));
        }
        s
    }
}

pub proof fn lemma_dec_str_nonempty(n: nat)
    ensures
        dec_str(n).len() >= 1,
    decreases n,
{
    if n >= 10 {
        lemma_dec_str_nonempty(n / 10);
    }
}

pub proof fn lemma_frac_text_nonempty(f: Frac)
    ensures
        frac_text(f).len() >= 1,
{
    let g = spec_gcd(f.num as nat, f.den as nat);
    lemma_dec_str_nonempty(f.num as nat / g);
    lemma_dec_str_nonempty(f.den as nat / g);
}

/// Canonical text of a rational: reduce by the gcd; a denominator of one
/// prints as a plain decimal integer, any other as "numerator/denominator".
pub open spec fn frac_text(f: Frac) -> Seq<char> {
    let g = spec_gcd(f.num as nat, f.den as nat);
    let n = f.num as nat / g;
    let d = f.den as nat / g;
    if d == 1 {
        dec_str(n)
    } else {
        dec_str(n) + seq!['/'] + dec_str(d)
    }
}

impl Frac {
    /// Render the rational as its canonical text.
    pub fn to_text(&self) -> (r: String)
        requires
            self.wf(),
        ensures
            r@ == frac_text(*self),
    {
        proof {
            lemma_gcd_pos(self.num as nat, self.den as nat);
        }
        let g = gcd_u64(self.num, self.den);
        let n = self.num / g;
        let d = self.den / g;
        if d == 1 {
            u64_text(n)
        } else {
            let mut s = u64_text(n);
            s.append("/");
            let dt = u64_text(d);
            s.append(dt.as_str());
            proof {
                reveal_strlit("/");
                assert(s@ =~= frac_text(*self));
            }
            s
        }
    }
}

} // verus!
