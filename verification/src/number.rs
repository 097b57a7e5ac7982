//! Numbers as exact decimal literals.
//!
//! A number is kept as the digits it was written with: a sign, the digits of
//! the integer part, the digits after the decimal point and a signed power of
//! ten. Nothing is rounded, so a number read from text and written again is
//! the same number.

use vstd::prelude::*;
use crate::text::{char_from_u32, digit_char, push_char};

verus! {

/// The mathematical content of a [`Number`].
pub struct NumberModel {
    pub negative: bool,
    pub integer: Seq<u8>,
    pub fraction: Seq<u8>,
    pub exponent_negative: bool,
    pub exponent: Seq<u8>,
}

/// A decimal number: `-? integer [. fraction] [e -? exponent]`.
///
/// Each vector holds decimal digits (values 0 to 9), most significant first.
/// `fraction` is empty when the number has no fractional digits and
/// `exponent` is empty when it has no power of ten.
#[derive(Debug, Clone)]
pub struct Number {
    pub negative: bool,
    pub integer: Vec<u8>,
    pub fraction: Vec<u8>,
    pub exponent_negative: bool,
    pub exponent: Vec<u8>,
}

/// The natural number written by the decimal digits `d`, most significant first.
pub open spec fn digits_value(d: Seq<u8>) -> nat
    decreases d.len(),
{
    if d.len() == 0 {
        0
    } else {
        digits_value(d.drop_last()) * 10 + d.last() as nat
    }
}

/// Every element is a decimal digit.
pub open spec fn all_digits(d: Seq<u8>) -> bool {
    forall|i: int| 0 <= i < d.len() ==> #[trigger] d[i] < 10
}

/// A digit string as an integer part is written: not empty, and without a
/// leading zero unless it is the single digit zero.
pub open spec fn is_canonical(d: Seq<u8>) -> bool {
    &&& d.len() >= 1
    &&& all_digits(d)
    &&& d[0] == 0 ==> d.len() == 1
}

/// The decimal digits of `n`, most significant first, without a leading zero.
pub open spec fn nat_digits(n: nat) -> Seq<u8>
    decreases n,
{
    if n < 10 {
        seq![n as u8]
    } else {
        nat_digits(n / 10).push((n % 10) as u8)
    }
}

/// The characters that write the digits `d`.
pub open spec fn digits_text(d: Seq<u8>) -> Seq<char> {
    Seq::new(d.len(), |i: int| digit_char(d[i]))
}

impl NumberModel {
    /// What the grammar of numbers produces: a canonical integer part, digits
    /// after the point, and an exponent that is absent or canonical.
    pub open spec fn wf(self) -> bool {
        &&& is_canonical(self.integer)
        &&& all_digits(self.fraction)
        &&& self.exponent.len() == 0 ==> !self.exponent_negative
        &&& self.exponent.len() > 0 ==> is_canonical(self.exponent)
    }

    /// The digits of the number as one signed integer, the decimal point removed.
    pub open spec fn significand(self) -> int {
        let m = digits_value(self.integer + self.fraction) as int;
        if self.negative {
            -m
        } else {
            m
        }
    }

    /// The power of ten by which the significand is multiplied: the number is
    /// `significand * 10^scale`.
    pub open spec fn scale(self) -> int {
        let e = digits_value(self.exponent) as int;
        (if self.exponent_negative {
            -e
        } else {
            e
        }) - self.fraction.len()
    }

    /// Whether the number is written as a plain integer: no digits after the
    /// point and no power of ten.
    pub open spec fn is_integer_literal(self) -> bool {
        self.fraction.len() == 0 && self.exponent.len() == 0
    }

    /// The text of the number.
    pub open spec fn text(self) -> Seq<char> {
        (if self.negative {
            seq!['-']
        } else {
            Seq::<char>::empty()
        }) + digits_text(self.integer) + (if self.fraction.len() > 0 {
            seq!['.'] + digits_text(self.fraction)
        } else {
            Seq::<char>::empty()
        }) + (if self.exponent.len() > 0 {
            seq!['e'] + (if self.exponent_negative {
                seq!['-']
            } else {
                Seq::<char>::empty()
            }) + digits_text(self.exponent)
        } else {
            Seq::<char>::empty()
        })
    }

    /// The number that the integer `n` is written as.
    pub open spec fn of_int(n: int) -> NumberModel {
        NumberModel {
            negative: n < 0,
            integer: nat_digits((if n < 0 {
                -n
            } else {
                n
            }) as nat),
            fraction: Seq::empty(),
            exponent_negative: false,
            exponent: Seq::empty(),
        }
    }
}

impl View for Number {
    type V = NumberModel;

    open spec fn view(&self) -> NumberModel {
        NumberModel {
            negative: self.negative,
            integer: self.integer@,
            fraction: self.fraction@,
            exponent_negative: self.exponent_negative,
            exponent: self.exponent@,
        }
    }
}

/// The digits of a number are digits, and they write the number.
pub proof fn lemma_nat_digits(n: nat)
    ensures
        is_canonical(nat_digits(n)),
        digits_value(nat_digits(n)) == n,
    decreases n,
{
    if n < 10 {
        let d = nat_digits(n);
        assert(d.drop_last() =~= Seq::<u8>::empty());
        assert(digits_value(d.drop_last()) == 0);
    } else {
        lemma_nat_digits(n / 10);
        let p = nat_digits(n / 10);
        let d = nat_digits(n);
        assert(d.drop_last() =~= p);
        assert(d[0] == p[0]);
        if p[0] == 0 {
            assert(p.len() == 1);
            assert(p.drop_last() =~= Seq::<u8>::empty());
            assert(digits_value(p.drop_last()) == 0);
            assert(p.last() == 0);
            assert(digits_value(p) == 0);
        }
    }
}

/// Appends to `out` the decimal digits of `n`.
pub fn push_digits_of(out: &mut Vec<u8>, n: u64)
    ensures
        final(out)@ == old(out)@ + nat_digits(n as nat),
    decreases n,
{
    if n < 10 {
        out.push(n as u8);
        assert(final(out)@ =~= old(out)@ + nat_digits(n as nat));
    } else {
        push_digits_of(out, n / 10);
        out.push((n % 10) as u8);
        assert(out@ =~= old(out)@ + nat_digits(n as nat));
    }
}

/// Appends to `s` the characters that write the digits `d`.
pub fn push_digits_text(s: &mut String, d: &Vec<u8>)
    ensures
        final(s)@ == old(s)@ + digits_text(d@),
{
    let mut i: usize = 0;
    while i < d.len()
        invariant
            i <= d.len(),
            s@ == old(s)@ + digits_text(d@.take(i as int)),
        decreases d.len() - i,
    {
        let c: char = match char_from_u32(d[i] as u32 + 0x30) {
            Some(c) => c,
            None => '0',
        };
        push_char(s, c);
        assert(d@.take(i + 1) =~= d@.take(i as int).push(d@[i as int]));
        assert(digits_text(d@.take(i + 1)) =~= digits_text(d@.take(i as int)).push(c));
        i += 1;
    }
    assert(d@.take(i as int) =~= d@);
}

/// A copy of a vector of digits.
pub fn copy_digits(d: &Vec<u8>) -> (r: Vec<u8>)
    ensures
        r@ == d@,
{
    let mut r: Vec<u8> = Vec::new();
    let mut i: usize = 0;
    while i < d.len()
        invariant
            i <= d.len(),
            r@ == d@.take(i as int),
        decreases d.len() - i,
    {
        r.push(d[i]);
        assert(d@.take(i + 1) =~= d@.take(i as int).push(d@[i as int]));
        i += 1;
    }
    assert(d@.take(i as int) =~= d@);
    r
}

impl Number {
    /// A copy of the number.
    pub fn duplicate(&self) -> (r: Number)
        ensures
            r@ == self@,
    {
        Number {
            negative: self.negative,
            integer: copy_digits(&self.integer),
            fraction: copy_digits(&self.fraction),
            exponent_negative: self.exponent_negative,
            exponent: copy_digits(&self.exponent),
        }
    }

    /// Whether the number could have been read from text.
    pub open spec fn wf(&self) -> bool {
        self@.wf()
    }

    /// The number that writes the integer `n`.
    pub fn from_i64(n: i64) -> (r: Number)
        ensures
            r@ == NumberModel::of_int(n as int),
            r.wf(),
            r@.is_integer_literal(),
            r@.significand() == n,
            r@.scale() == 0,
    {
        let magnitude: u64 = if n < 0 {
            (-(n + 1)) as u64 + 1
        } else {
            n as u64
        };
        let mut integer: Vec<u8> = Vec::new();
        push_digits_of(&mut integer, magnitude);
        let r = Number {
            negative: n < 0,
            integer,
            fraction: Vec::new(),
            exponent_negative: false,
            exponent: Vec::new(),
        };
        proof {
            lemma_nat_digits(magnitude as nat);
            assert(r@.integer =~= nat_digits(magnitude as nat));
            assert(r@.integer + r@.fraction =~= r@.integer);
            assert(r@.exponent =~= Seq::<u8>::empty());
            assert(r@.fraction =~= Seq::<u8>::empty());
        }
        r
    }

    /// The number that writes the integer `n`.
    pub fn from_u64(n: u64) -> (r: Number)
        ensures
            r@ == NumberModel::of_int(n as int),
            r.wf(),
            r@.is_integer_literal(),
            r@.significand() == n,
            r@.scale() == 0,
    {
        let mut integer: Vec<u8> = Vec::new();
        push_digits_of(&mut integer, n);
        let r = Number {
            negative: false,
            integer,
            fraction: Vec::new(),
            exponent_negative: false,
            exponent: Vec::new(),
        };
        proof {
            lemma_nat_digits(n as nat);
            assert(r@.integer =~= nat_digits(n as nat));
            assert(r@.integer + r@.fraction =~= r@.integer);
            assert(r@.exponent =~= Seq::<u8>::empty());
            assert(r@.fraction =~= Seq::<u8>::empty());
        }
        r
    }

    /// The integer that the number writes, if it is written as a plain
    /// integer (no fractional digits, no power of ten) and fits in an `i64`.
    pub fn as_i64(&self) -> (r: Option<i64>)
        requires
            self.wf(),
        ensures
            r is Some <==> self@.is_integer_literal() && i64::MIN <= self@.significand()
                <= i64::MAX,
            r matches Some(v) ==> v == self@.significand(),
    {
        if self.fraction.len() > 0 || self.exponent.len() > 0 {
            return None;
        }
        assert(self@.integer + self@.fraction =~= self@.integer);
        let limit: u64 = if self.negative {
            0x8000_0000_0000_0000
        } else {
            0x7FFF_FFFF_FFFF_FFFF
        };
        let mut acc: u64 = 0;
        let mut i: usize = 0;
        while i < self.integer.len()
            invariant
                i <= self.integer.len(),
                all_digits(self.integer@),
                acc == digits_value(self.integer@.take(i as int)),
                acc <= limit,
                0x7FFF_FFFF_FFFF_FFFF <= limit <= 0x8000_0000_0000_0000,
                limit == (if self.negative {
                    0x8000_0000_0000_0000u64
                } else {
                    0x7FFF_FFFF_FFFF_FFFFu64
                }),
                self@.integer + self@.fraction == self@.integer,
                self@.is_integer_literal(),
            decreases self.integer.len() - i,
        {
            let d: u64 = self.integer[i] as u64;
            proof {
                assert(self.integer@.take(i + 1).drop_last() =~= self.integer@.take(i as int));
                lemma_digits_value_monotone(self.integer@, i + 1);
            }
            assert(d < 10);
            assert(digits_value(self.integer@.take(i + 1)) == acc * 10 + d);
            if acc > (limit - d) / 10 {
                assert(acc * 10 + d > limit);
                return None;
            }
            acc = acc * 10 + d;
            i += 1;
        }
        assert(self.integer@.take(i as int) =~= self.integer@);
        if self.negative {
            if acc == 0x8000_0000_0000_0000 {
                Some(i64::MIN)
            } else {
                Some(-(acc as i64))
            }
        } else {
            Some(acc as i64)
        }
    }

    /// Appends the text of the number to `s`.
    pub fn write_to(&self, s: &mut String)
        ensures
            final(s)@ == old(s)@ + self@.text(),
    {
        if self.negative {
            push_char(s, '-');
        }
        push_digits_text(s, &self.integer);
        if self.fraction.len() > 0 {
            push_char(s, '.');
            push_digits_text(s, &self.fraction);
        }
        if self.exponent.len() > 0 {
            push_char(s, 'e');
            if self.exponent_negative {
                push_char(s, '-');
            }
            push_digits_text(s, &self.exponent);
        }
        assert(s@ =~= old(s)@ + self@.text());
    }

    /// The text of the number.
    pub fn to_text(&self) -> (s: String)
        ensures
            s@ == self@.text(),
    {
        let mut s = String::new();
        self.write_to(&mut s);
        assert(s@ =~= self@.text());
        s
    }
}

/// A prefix of a digit string writes no more than the whole string.
pub proof fn lemma_digits_value_monotone(d: Seq<u8>, n: int)
    requires
        0 <= n <= d.len(),
    ensures
        digits_value(d.take(n)) <= digits_value(d),
    decreases d.len() - n,
{
    if n == d.len() {
        assert(d.take(n) =~= d);
    } else {
        lemma_digits_value_monotone(d, n + 1);
        assert(d.take(n + 1).drop_last() =~= d.take(n));
        assert(digits_value(d.take(n + 1)) == digits_value(d.take(n)) * 10 + d.take(n + 1).last());
    }
}

} // verus!
