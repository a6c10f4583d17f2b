//! A fraction of two machine integers, tagged as raw or as reduced, and its
//! reduction to lowest terms.

use crate::arith::{
    common_divisor, divides, gcd, is_gcd, lemma_exact_quotient, lemma_gcd_exists,
    lemma_gcd_unique, lemma_lowest_terms,
};
use crate::ascending::{ascending_intersection, greatest, ints};
use crate::divisors::{divisors, lemma_divisors, DivisorIterator};
use crate::text::{
    decimal_i32, decimal_text, fields, find_space, i32_to_string, lemma_fields,
    lemma_first_space, parse_i32,
};
use std::num::ParseIntError;
use vstd::prelude::*;
use vstd::string::{to_string_from_display_ensures, StrSliceExecFns, StringExecFns};

verus! {

/// The absolute value of `a`.
pub open spec fn magnitude(a: int) -> int {
    if a < 0 {
        -a
    } else {
        a
    }
}

/// Whether `a` has a divisor sequence to reduce by: its magnitude is a
/// positive value of the machine integer. Zero has none, and neither has the
/// least machine integer, whose magnitude is out of range.
pub open spec fn has_divisors(a: int) -> bool {
    1 <= magnitude(a) <= i32::MAX
}

/// The value that both parts of the fraction `a / b` are divided by when it
/// is reduced: the greatest common divisor of the two magnitudes, or 1 where
/// either part has no divisor sequence.
pub open spec fn common_factor(a: int, b: int) -> int {
    if has_divisors(a) && has_divisors(b) {
        gcd(magnitude(a), magnitude(b))
    } else {
        1
    }
}

/// The parts of the fraction `a / b` in lowest terms. Each part keeps its
/// sign; a fraction of which either part has no divisor sequence stays as it
/// is.
pub open spec fn lowest_terms(a: int, b: int) -> (int, int) {
    (a / common_factor(a, b), b / common_factor(a, b))
}

/// The common factor of a fraction is positive and divides both parts; the
/// lowest terms, multiplied by it, give the parts back, and are themselves
/// in lowest terms. A fraction of which either part has no divisor
/// sequence is its own lowest terms.
pub proof fn lemma_common_factor(a: int, b: int)
    ensures
        common_factor(a, b) >= 1,
        divides(common_factor(a, b), a),
        divides(common_factor(a, b), b),
        magnitude(lowest_terms(a, b).0) <= magnitude(a),
        magnitude(lowest_terms(a, b).1) <= magnitude(b),
        magnitude(lowest_terms(a, b).0) * common_factor(a, b) == magnitude(a),
        magnitude(lowest_terms(a, b).1) * common_factor(a, b) == magnitude(b),
        common_factor(lowest_terms(a, b).0, lowest_terms(a, b).1) == 1,
        !(has_divisors(a) && has_divisors(b)) ==> lowest_terms(a, b) == (a, b),
{
    let g = common_factor(a, b);
    if has_divisors(a) && has_divisors(b) {
        let ma = magnitude(a);
        let mb = magnitude(b);
        lemma_gcd_exists(ma, mb);
        lemma_lowest_terms(ma, mb);
        lemma_exact_quotient(ma, g);
        lemma_exact_quotient(mb, g);
        assert(magnitude(a / g) == ma / g);
        assert(magnitude(b / g) == mb / g);
        assert((ma / g) * g == ma) by (nonlinear_arith)
            requires
                ma == g * (ma / g),
        ;
        assert((mb / g) * g == mb) by (nonlinear_arith)
            requires
                mb == g * (mb / g),
        ;
    } else {
        assert(a / 1 == a && b / 1 == b);
    }
}

/// The text of the fraction `n / d`: the decimal numeral of `n`, a slash,
/// and the decimal numeral of `d`.
pub open spec fn fraction_text(n: int, d: int) -> Seq<char> {
    decimal_text(n) + seq!['/'] + decimal_text(d)
}

/// Why a text denotes no fraction.
#[derive(Clone, Copy, Debug, PartialEq, Eq)]
pub enum FormatFault {
    /// One of the first two fields is no decimal numeral of a machine
    /// integer.
    IntParse,
    /// There is one field only.
    TooFewParts,
    /// There are more than two fields.
    TooManyParts,
}

/// What a text denotes: the numerator and the denominator held by its two
/// fields, or the first fault met when its fields are read in order. The
/// first field is read before the second is looked for, and the second
/// before a third is looked for.
pub open spec fn parsed(s: Seq<char>) -> Result<(int, int), FormatFault> {
    let parts = fields(s);
    match decimal_i32(parts[0]) {
        None => Err(FormatFault::IntParse),
        Some(n) => if parts.len() < 2 {
            Err(FormatFault::TooFewParts)
        } else {
            match decimal_i32(parts[1]) {
                None => Err(FormatFault::IntParse),
                Some(d) => if parts.len() > 2 {
                    Err(FormatFault::TooManyParts)
                } else {
                    Ok((n, d))
                },
            }
        },
    }
}

/// The failure to read a fraction from text.
#[derive(Debug)]
pub enum FractionError {
    /// A field is no integer; the failure of the integer parser is kept.
    IntParse(ParseIntError),
    /// The text has fewer than two fields.
    TooFewParts,
    /// The text has more than two fields.
    TooManyParts,
}

impl FractionError {
    /// The fault that the error reports.
    pub open spec fn fault(&self) -> FormatFault {
        match *self {
            FractionError::IntParse(_) => FormatFault::IntParse,
            FractionError::TooFewParts => FormatFault::TooFewParts,
            FractionError::TooManyParts => FormatFault::TooManyParts,
        }
    }

    /// The message of the error. For a field that is no integer it is the
    /// message that the failure of the integer parser displays.
    pub fn to_string(&self) -> (message: String)
        ensures
            *self is TooFewParts ==> message@ == "Too few parts"@,
            *self is TooManyParts ==> message@ == "Too many parts"@,
            *self matches FractionError::IntParse(e) ==> to_string_from_display_ensures::<
                ParseIntError,
            >(&e, message),
    {
        match self {
            FractionError::IntParse(e) => e.to_string(),
            FractionError::TooManyParts => String::from_str("Too many parts"),
            FractionError::TooFewParts => String::from_str("Too few parts"),
        }
    }
}

/// A fraction: a numerator and a denominator, tagged as raw or as reduced.
#[derive(Clone, Copy, Debug, Eq)]
pub enum Fraction {
    /// As it was given.
    Raw(i32, i32),
    /// As reduction left it.
    Reduced(i32, i32),
}

impl Fraction {
    /// The numerator, whatever the tag.
    pub open spec fn spec_numerator(&self) -> i32 {
        match *self {
            Fraction::Raw(n, _) => n,
            Fraction::Reduced(n, _) => n,
        }
    }

    /// The denominator, whatever the tag.
    pub open spec fn spec_denominator(&self) -> i32 {
        match *self {
            Fraction::Raw(_, d) => d,
            Fraction::Reduced(_, d) => d,
        }
    }

    /// The parts of the fraction have no factor left to reduce by.
    pub open spec fn in_lowest_terms(&self) -> bool {
        common_factor(self.spec_numerator() as int, self.spec_denominator() as int) == 1
    }

    /// The tag tells the truth: a fraction tagged as reduced is in lowest
    /// terms.
    pub open spec fn wf(&self) -> bool {
        *self is Reduced ==> self.in_lowest_terms()
    }

    /// The fraction that reduction yields: a reduced fraction as it is, a
    /// raw one in lowest terms, tagged as reduced.
    pub open spec fn reduced(&self) -> Fraction {
        match *self {
            Fraction::Reduced(a, b) => Fraction::Reduced(a, b),
            Fraction::Raw(a, b) => Fraction::Reduced(
                lowest_terms(a as int, b as int).0 as i32,
                lowest_terms(a as int, b as int).1 as i32,
            ),
        }
    }

    /// A raw fraction of the two parts as given: nothing is normalised.
    pub fn new(a: i32, b: i32) -> (f: Fraction)
        ensures
            f == Fraction::Raw(a, b),
    {
        Fraction::Raw(a, b)
    }

    /// Reduces the fraction to lowest terms: both parts are divided by the
    /// greatest common divisor of their magnitudes, and each keeps its sign.
    /// A raw fraction with a part that is zero or the least machine integer
    /// keeps its parts. A fraction tagged as reduced comes back as it is.
    /// The receiver is left alone.
    pub fn reduce(&self) -> (r: Fraction)
        ensures
            r == self.reduced(),
            r is Reduced,
            *self is Reduced ==> r == *self,
            *self is Raw ==> (r.spec_numerator() as int, r.spec_denominator() as int)
                == lowest_terms(self.spec_numerator() as int, self.spec_denominator() as int),
            *self is Raw ==> r.in_lowest_terms(),
            self.wf() ==> r.wf(),
    {
        match *self {
            Fraction::Reduced(a, b) => Fraction::Reduced(a, b),
            Fraction::Raw(a, b) => {
                proof {
                    lemma_common_factor(a as int, b as int);
                }
                let (a, b) = reduce(a, b);
                Fraction::Reduced(a, b)
            },
        }
    }

    /// Reads a fraction from text: two fields separated by one space, each
    /// the decimal numeral of a machine integer. The fraction read is raw.
    /// The faults are met in the order in which the fields are read: a
    /// first field that is no integer, a missing second field, a second
    /// field that is no integer, a third field.
    pub fn parse(s: &str) -> (r: Result<Fraction, FractionError>)
        ensures
            match r {
                Ok(f) => parsed(s@) == Ok::<(int, int), FormatFault>(
                    (f.spec_numerator() as int, f.spec_denominator() as int),
                ) && f is Raw,
                Err(e) => parsed(s@) == Err::<(int, int), FormatFault>(e.fault()),
            },
    {
        let len = s.unicode_len();
        let first_end = find_space(s);
        proof {
            lemma_first_space(s@, 0);
            lemma_fields(s@);
        }
        let first = s.substring_char(0, first_end);
        assert(first@ =~= s@.take(first_end as int));
        let numerator = match parse_i32(first) {
            Ok(n) => n,
            Err(e) => {
                return Err(FractionError::IntParse(e));
            },
        };
        if first_end >= len {
            return Err(FractionError::TooFewParts);
        }
        let rest = s.substring_char(first_end + 1, len);
        assert(rest@ =~= s@.skip(first_end + 1));
        let rest_len = rest.unicode_len();
        let second_end = find_space(rest);
        proof {
            lemma_first_space(rest@, 0);
            lemma_fields(rest@);
            assert(fields(s@)[1] == fields(rest@)[0]);
        }
        let second = rest.substring_char(0, second_end);
        assert(second@ =~= rest@.take(second_end as int));
        let denominator = match parse_i32(second) {
            Ok(d) => d,
            Err(e) => {
                return Err(FractionError::IntParse(e));
            },
        };
        if second_end < rest_len {
            proof {
                lemma_fields(rest@.skip(second_end + 1));
            }
            return Err(FractionError::TooManyParts);
        }
        Ok(Fraction::new(numerator, denominator))
    }

    /// The text of the fraction: numerator, slash, denominator, whatever
    /// the tag.
    pub fn to_string(&self) -> (text: String)
        ensures
            text@ == fraction_text(self.spec_numerator() as int, self.spec_denominator() as int),
    {
        let mut text = i32_to_string(self.numerator());
        let denominator = i32_to_string(self.denominator());
        proof {
            reveal_strlit("/");
            assert("/"@ =~= seq!['/']);
        }
        text.append("/");
        text.append(denominator.as_str());
        text
    }

    /// The numerator, whatever the tag.
    #[verifier::when_used_as_spec(spec_numerator)]
    pub fn numerator(&self) -> (n: i32)
        ensures
            n == self.spec_numerator(),
    {
        match *self {
            Fraction::Raw(n, _) | Fraction::Reduced(n, _) => n,
        }
    }

    /// The denominator, whatever the tag.
    #[verifier::when_used_as_spec(spec_denominator)]
    pub fn denominator(&self) -> (d: i32)
        ensures
            d == self.spec_denominator(),
    {
        match *self {
            Fraction::Raw(_, d) | Fraction::Reduced(_, d) => d,
        }
    }
}

/// Reduction is idempotent: reducing what reduction yields changes nothing.
pub proof fn lemma_reduce_idempotent(f: Fraction)
    ensures
        f.reduced().reduced() == f.reduced(),
        f.reduced() is Reduced,
{
}

/// What reduction yields is in lowest terms, provided that a fraction which
/// was tagged as reduced to begin with was so.
pub proof fn lemma_reduced_in_lowest_terms(f: Fraction)
    requires
        f.wf(),
    ensures
        f.reduced().in_lowest_terms(),
        f.reduced().wf(),
{
    let a = f.spec_numerator() as int;
    let b = f.spec_denominator() as int;
    lemma_common_factor(a, b);
    if has_divisors(a) && has_divisors(b) {
        assert(i32::MIN <= lowest_terms(a, b).0 <= i32::MAX);
        assert(i32::MIN <= lowest_terms(a, b).1 <= i32::MAX);
    }
}

/// Reduction is correct: a raw fraction of two positive integers becomes
/// the fraction of their quotients by their greatest common divisor, and
/// these quotients have no common divisor but one.
pub proof fn lemma_reduce_positive(a: i32, b: i32)
    requires
        a >= 1,
        b >= 1,
    ensures
        is_gcd(gcd(a as int, b as int), a as int, b as int),
        Fraction::Raw(a, b).reduced().spec_numerator() == a as int / gcd(a as int, b as int),
        Fraction::Raw(a, b).reduced().spec_denominator() == b as int / gcd(a as int, b as int),
        gcd(a as int / gcd(a as int, b as int), b as int / gcd(a as int, b as int)) == 1,
{
    lemma_gcd_exists(a as int, b as int);
    lemma_lowest_terms(a as int, b as int);
    lemma_common_factor(a as int, b as int);
}

impl std::str::FromStr for Fraction {
    type Err = FractionError;

    /// Reads a fraction from text, as [`Fraction::parse`] does: two fields
    /// separated by one space, each the decimal numeral of a machine
    /// integer, give a raw fraction; otherwise the first fault met when the
    /// fields are read in order is reported.
    fn from_str(s: &str) -> (r: Result<Fraction, FractionError>)
        ensures
            match r {
                Ok(f) => parsed(s@) == Ok::<(int, int), FormatFault>(
                    (f.spec_numerator() as int, f.spec_denominator() as int),
                ) && f is Raw,
                Err(e) => parsed(s@) == Err::<(int, int), FormatFault>(e.fault()),
            },
    {
        Fraction::parse(s)
    }
}

impl PartialEq for Fraction {
    /// Two fractions are equal where their numerators are equal and their
    /// denominators are equal; the tags play no part.
    fn eq(&self, other: &Fraction) -> (equal: bool) {
        self.numerator() == other.numerator() && self.denominator() == other.denominator()
    }
}

impl vstd::std_specs::cmp::PartialEqSpecImpl for Fraction {
    open spec fn obeys_eq_spec() -> bool {
        true
    }

    open spec fn eq_spec(&self, other: &Fraction) -> bool {
        self.spec_numerator() == other.spec_numerator() && self.spec_denominator()
            == other.spec_denominator()
    }
}

/// One is in every divisor sequence.
proof fn lemma_one_is_a_divisor(n: int)
    ensures
        divisors(n).contains(1),
{
    if n >= 1 {
        lemma_divisors(n);
    }
    assert(divisors(n)[0] == 1);
}

/// The greatest value that the divisor sequences of two positive integers
/// share is their greatest common divisor.
proof fn lemma_greatest_shared_divisor(m: int, n: int, shared: Seq<int>, g: int)
    requires
        m >= 1,
        n >= 1,
        forall|x: int| shared.contains(x) <==> divisors(m).contains(x) && divisors(n).contains(x),
        shared.contains(g),
        forall|i: int| 0 <= i < shared.len() ==> shared[i] <= g,
    ensures
        is_gcd(g, m, n),
        gcd(m, n) == g,
{
    let dm = divisors(m);
    let dn = divisors(n);
    lemma_divisors(m);
    lemma_divisors(n);
    assert(dm.contains(g) && dn.contains(g));
    assert forall|d: int| #[trigger] common_divisor(d, m, n) implies d <= g by {
        assert(dm.contains(d) && dn.contains(d));
        assert(shared.contains(d));
        let i = choose|i: int| 0 <= i < shared.len() && shared[i] == d;
        assert(shared[i] <= g);
    }
    assert(is_gcd(g, m, n));
    lemma_gcd_unique(g, m, n);
}

/// The magnitude of a machine integer other than the least one.
fn magnitude_of(a: i32) -> (m: i32)
    requires
        a > i32::MIN,
    ensures
        m == magnitude(a as int),
{
    if a < 0 {
        -a
    } else {
        a
    }
}

/// The quotient of `a` by a positive divisor `g` of its magnitude; it keeps
/// the sign of `a`.
fn exact_quotient(a: i32, g: i32) -> (q: i32)
    requires
        a > i32::MIN,
        divides(g as int, magnitude(a as int)),
    ensures
        q == a as int / g as int,
{
    let m = magnitude_of(a);
    let q = m / g;
    proof {
        lemma_exact_quotient(m as int, g as int);
    }
    if a < 0 {
        -q
    } else {
        q
    }
}

/// The parts of the fraction `a / b` in lowest terms. The divisors of the
/// two magnitudes are listed in ascending order, the two lists are
/// intersected, and both parts are divided by the greatest value shared, or
/// by 1 where nothing is shared.
fn reduce(a: i32, b: i32) -> (r: (i32, i32))
    ensures
        (r.0 as int, r.1 as int) == lowest_terms(a as int, b as int),
{
    if a == 0 || b == 0 || a == i32::MIN || b == i32::MIN {
        return (a, b);
    }
    let ma = magnitude_of(a);
    let mb = magnitude_of(b);
    let divisors_a = DivisorIterator::new(ma).collect();
    let divisors_b = DivisorIterator::new(mb).collect();
    let common = ascending_intersection(&divisors_a, &divisors_b);
    let greatest_common_divisor = match greatest(&common) {
        Some(g) => g,
        None => 1,
    };
    proof {
        let shared = ints(common@);
        lemma_divisors(ma as int);
        lemma_divisors(mb as int);
        lemma_one_is_a_divisor(ma as int);
        lemma_one_is_a_divisor(mb as int);
        assert(shared.contains(1));
        let k = choose|k: int| 0 <= k < shared.len() && shared[k] == 1;
        assert(common@[k] == 1);
        let h = choose|h: int|
            0 <= h < common@.len() && common@[h] == greatest_common_divisor;
        assert(shared[h] == greatest_common_divisor);
        assert forall|i: int| 0 <= i < shared.len() implies shared[i]
            <= greatest_common_divisor by {
            assert(shared[i] == common@[i]);
        }
        lemma_greatest_shared_divisor(ma as int, mb as int, shared, greatest_common_divisor as int);
    }
    (exact_quotient(a, greatest_common_divisor), exact_quotient(b, greatest_common_divisor))
}

} // verus!
