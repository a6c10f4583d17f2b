//! The divisors of an integer, produced one at a time in ascending order.

use crate::arith::{divides, lemma_divisor_at_most};
use crate::ascending::{ints, strictly_ascending};
use vstd::prelude::*;

verus! {

/// The integers from `lo` to `hi`, both included, in ascending order. It is
/// empty where `lo > hi`.
pub open spec fn span(lo: int, hi: int) -> Seq<int> {
    Seq::new(
        if lo <= hi {
            (hi - lo + 1) as nat
        } else {
            0
        },
        |i: int| lo + i,
    )
}

/// The divisors of `n` among the integers from `lo` to `hi`, in ascending
/// order.
pub open spec fn divisors_between(n: int, lo: int, hi: int) -> Seq<int>
    decreases hi - lo + 1,
{
    if lo > hi {
        Seq::empty()
    } else if divides(lo, n) {
        seq![lo] + divisors_between(n, lo + 1, hi)
    } else {
        divisors_between(n, lo + 1, hi)
    }
}

/// The divisor sequence of `n`: for a positive `n`, all its divisors from 1
/// to `n` in ascending order. An integer below one has no divisor sequence
/// of its own; it is given the sequence that holds 1 alone.
pub open spec fn divisors(n: int) -> Seq<int> {
    if n >= 1 {
        divisors_between(n, 1, n)
    } else {
        seq![1int]
    }
}

/// What [`divisors_between`] holds: exactly the divisors of `n` within the
/// bounds, in strictly ascending order.
pub proof fn lemma_divisors_between(n: int, lo: int, hi: int)
    requires
        lo >= 1,
    ensures
        forall|d: int| #[trigger]
            divisors_between(n, lo, hi).contains(d) <==> lo <= d <= hi && divides(d, n),
        strictly_ascending(divisors_between(n, lo, hi)),
    decreases hi - lo + 1,
{
    let s = divisors_between(n, lo, hi);
    if lo <= hi {
        let rest = divisors_between(n, lo + 1, hi);
        lemma_divisors_between(n, lo + 1, hi);
        if divides(lo, n) {
            assert(s == seq![lo] + rest);
            assert(s[0] == lo);
            assert forall|i: int| 1 <= i < s.len() implies #[trigger] s[i] == rest[i - 1] by {}
            assert forall|d: int| #[trigger] s.contains(d) <==> lo <= d <= hi && divides(d, n) by {
                if s.contains(d) {
                    let i = choose|i: int| 0 <= i < s.len() && s[i] == d;
                    if i > 0 {
                        assert(rest[i - 1] == d);
                        assert(rest.contains(d));
                    }
                }
                if lo < d <= hi && divides(d, n) {
                    assert(rest.contains(d));
                    let j = choose|j: int| 0 <= j < rest.len() && rest[j] == d;
                    assert(s[j + 1] == d);
                }
            }
            assert forall|i: int, j: int| 0 <= i < j < s.len() implies s[i] < s[j] by {
                assert(s[j] == rest[j - 1]);
                assert(rest.contains(rest[j - 1]));
                if i > 0 {
                    assert(s[i] == rest[i - 1]);
                }
            }
        } else {
            assert forall|d: int| #[trigger] s.contains(d) <==> lo <= d <= hi && divides(d, n) by {
                assert(rest.contains(d) <==> lo + 1 <= d <= hi && divides(d, n));
            }
        }
    }
}

/// Where `lo` does not exceed a positive `n`, the divisors of `n` from `lo`
/// upwards end with `n` itself.
proof fn lemma_divisors_end(n: int, lo: int)
    requires
        1 <= lo <= n,
    ensures
        divisors_between(n, lo, n).len() >= 1,
        divisors_between(n, lo, n).last() == n,
    decreases n - lo,
{
    if lo < n {
        lemma_divisors_end(n, lo + 1);
    } else {
        assert(divisors_between(n, lo + 1, n) =~= Seq::<int>::empty());
        assert(divides(n, n)) by (nonlinear_arith)
            requires
                n >= 1,
        ;
    }
}

/// The divisor sequence of a positive integer `n` starts at 1, ends at `n`
/// and ascends strictly, and the values in it are exactly the divisors of
/// `n`.
pub proof fn lemma_divisors(n: int)
    requires
        n >= 1,
    ensures
        divisors(n).len() >= 1,
        divisors(n).first() == 1,
        divisors(n).last() == n,
        strictly_ascending(divisors(n)),
        forall|d: int| #[trigger] divisors(n).contains(d) <==> divides(d, n),
{
    let s = divisors(n);
    lemma_divisors_between(n, 1, n);
    lemma_divisors_end(n, 1);
    assert(s == seq![1int] + divisors_between(n, 2, n));
    assert(s[0] == 1);
    assert forall|d: int| #[trigger] s.contains(d) <==> divides(d, n) by {
        if divides(d, n) {
            lemma_divisor_at_most(d, n);
        }
    }
}

/// No divisor is passed over: an integer that lies strictly between two
/// neighbours of the divisor sequence of a positive integer `n` does not
/// divide `n`.
pub proof fn lemma_no_divisor_between_neighbours(n: int, i: int, d: int)
    requires
        n >= 1,
        0 <= i < divisors(n).len() - 1,
        divisors(n)[i] < d < divisors(n)[i + 1],
    ensures
        !divides(d, n),
{
    let s = divisors(n);
    lemma_divisors(n);
    if divides(d, n) {
        assert(s.contains(d));
        let j = choose|j: int| 0 <= j < s.len() && s[j] == d;
        if j <= i {
            assert(j == i || s[j] < s[i]);
        } else {
            assert(j == i + 1 || s[i + 1] < s[j]);
        }
    }
}

/// A forward-only walk over the integers from a first to a last value, both
/// included.
pub struct InclusiveRange {
    current: i32,
    max: i32,
    exhausted: bool,
}

impl View for InclusiveRange {
    type V = Seq<int>;

    /// The values that the walk has yet to produce, in order.
    closed spec fn view(&self) -> Seq<int> {
        if self.exhausted {
            Seq::empty()
        } else {
            span(self.current as int, self.max as int)
        }
    }
}

impl InclusiveRange {
    /// A walk from `current` up to `max`; it produces nothing where
    /// `current > max`.
    pub fn new(current: i32, max: i32) -> (range: InclusiveRange)
        ensures
            range@ == span(current as int, max as int),
    {
        InclusiveRange { current: current, max: max, exhausted: false }
    }

    /// Produces the next value of the walk, or `None` once `max` has been
    /// produced.
    pub fn next(&mut self) -> (r: Option<i32>)
        ensures
            old(self)@.len() == 0 ==> r is None && final(self)@ == old(self)@,
            old(self)@.len() > 0 ==> (r matches Some(x) && x == old(self)@.first() && final(self)@
                == old(self)@.skip(1)),
    {
        if self.exhausted || self.current > self.max {
            return None;
        }
        let ret = self.current;
        if self.current == self.max {
            self.exhausted = true;
        } else {
            self.current += 1;
        }
        assert(final(self)@ =~= old(self)@.skip(1));
        Some(ret)
    }
}

/// The first divisor of `n` that is greater than `after`, if there is one up
/// to `n`.
fn next_divisor(n: i32, after: i32) -> (r: Option<i32>)
    requires
        after >= 1,
    ensures
        match r {
            Some(k) => after < k <= n && divisors_between(n as int, after + 1, n as int) == seq![
                k as int,
            ] + divisors_between(n as int, k + 1, n as int),
            None => divisors_between(n as int, after + 1, n as int) == Seq::<int>::empty(),
        },
{
    if after >= n {
        return None;
    }
    let mut range = InclusiveRange::new(after + 1, n);
    let ghost mut k: int = after + 1;
    loop
        invariant
            1 <= after < k <= n + 1,
            range@ == span(k, n as int),
            divisors_between(n as int, after + 1, n as int) == divisors_between(n as int, k, n as int),
        decreases n + 1 - k,
    {
        match range.next() {
            None => {
                return None;
            },
            Some(c) => {
                assert(c == k);
                assert(span(k, n as int).skip(1) =~= span(k + 1, n as int));
                if n % c == 0 {
                    return Some(c);
                }
                proof {
                    k = k + 1;
                }
            },
        }
    }
}

/// The divisor sequence of an integer, produced lazily: each step hands out
/// one divisor and looks for the next. It is consumed in one pass.
#[derive(Debug)]
pub struct DivisorIterator {
    value: i32,
    last: Option<i32>,
}

impl View for DivisorIterator {
    type V = Seq<int>;

    /// The values that the sequence has yet to produce, in order.
    closed spec fn view(&self) -> Seq<int> {
        match self.last {
            None => Seq::empty(),
            Some(c) => seq![c as int] + divisors_between(self.value as int, c + 1, self.value as int),
        }
    }
}

impl DivisorIterator {
    #[verifier::type_invariant]
    spec fn cursor_is_positive(&self) -> bool {
        self.last matches Some(c) ==> c >= 1
    }

    /// The divisor sequence of `n`, none of it produced yet.
    pub fn new(n: i32) -> (it: DivisorIterator)
        ensures
            it@ == divisors(n as int),
    {
        assert(divisors(n as int) =~= seq![1int] + divisors_between(n as int, 2, n as int)) by {
            reveal_with_fuel(divisors_between, 2);
        }
        DivisorIterator { value: n, last: Some(1) }
    }

    /// Produces the next divisor, or `None` once the sequence is exhausted.
    pub fn next(&mut self) -> (r: Option<i32>)
        ensures
            old(self)@.len() == 0 ==> r is None && final(self)@ == old(self)@,
            old(self)@.len() > 0 ==> (r matches Some(x) && x == old(self)@.first() && final(self)@
                == old(self)@.skip(1)),
    {
        proof {
            use_type_invariant(&*self);
        }
        match self.last {
            None => None,
            Some(last) => {
                let ghost rest = divisors_between(self.value as int, last + 1, self.value as int);
                assert(old(self)@.skip(1) =~= rest);
                self.last = next_divisor(self.value, last);
                Some(last)
            },
        }
    }

    /// Drives the sequence to exhaustion and returns all that it produced.
    pub fn collect(self) -> (all: Vec<i32>)
        ensures
            ints(all@) == self@,
    {
        let ghost whole = self@;
        let mut it = self;
        let mut all: Vec<i32> = Vec::new();
        loop
            invariant
                ints(all@) + it@ == whole,
            ensures
                ints(all@) == whole,
            decreases it@.len(),
        {
            let ghost before = ints(all@);
            let ghost pending = it@;
            match it.next() {
                None => {
                    assert(before + pending =~= before);
                    break;
                },
                Some(d) => {
                    all.push(d);
                    assert(ints(all@) =~= before.push(d as int));
                    assert(before.push(pending.first()) + pending.skip(1) =~= before + pending);
                },
            }
        }
        all
    }
}

} // verus!
