//! One line of input to one line of output: a fraction read, reduced and
//! written again.

use crate::fraction::{fraction_text, lemma_common_factor, lowest_terms, parsed, Fraction};
use crate::text::{trim, trimmed};
use vstd::prelude::*;

verus! {

/// The output that a line of input gives rise to: where the line, without
/// the white space at its two ends, denotes a fraction, the text of that
/// fraction in lowest terms; otherwise none.
pub open spec fn reduced_text(line: Seq<char>) -> Option<Seq<char>> {
    match parsed(trimmed(line)) {
        Ok((n, d)) => Some(fraction_text(lowest_terms(n, d).0, lowest_terms(n, d).1)),
        Err(_) => None,
    }
}

/// Reads a fraction from a line, reduces it and writes it. White space at
/// the ends of the line, such as the line break, is ignored. A line that
/// denotes no fraction gives `None` and is to be passed over.
pub fn reduce_line(line: &str) -> (out: Option<String>)
    ensures
        match out {
            Some(text) => reduced_text(line@) == Some(text@),
            None => reduced_text(line@) is None,
        },
{
    match Fraction::parse(trim(line)) {
        Ok(fraction) => {
            proof {
                lemma_common_factor(
                    fraction.spec_numerator() as int,
                    fraction.spec_denominator() as int,
                );
            }
            Some(fraction.reduce().to_string())
        },
        Err(_) => None,
    }
}

} // verus!
