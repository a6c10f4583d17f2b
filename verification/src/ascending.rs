//! Strictly ascending sequences of integers and the values two of them share.

use vstd::prelude::*;

verus! {

/// The values of `s` as mathematical integers.
pub open spec fn ints(s: Seq<i32>) -> Seq<int> {
    s.map_values(|x: i32| x as int)
}

/// Each value is smaller than the one after it.
pub open spec fn strictly_ascending(s: Seq<int>) -> bool {
    forall|i: int, j: int| 0 <= i < j < s.len() ==> s[i] < s[j]
}

/// The result of walking `a` and `b` side by side from their heads: equal
/// heads are handed out once and both sequences move on, otherwise the
/// sequence with the smaller head moves on alone. The walk ends when either
/// sequence is used up.
pub open spec fn common_values(a: Seq<int>, b: Seq<int>) -> Seq<int>
    decreases a.len() + b.len(),
{
    if a.len() == 0 || b.len() == 0 {
        Seq::empty()
    } else if a[0] == b[0] {
        seq![a[0]] + common_values(a.skip(1), b.skip(1))
    } else if a[0] < b[0] {
        common_values(a.skip(1), b)
    } else {
        common_values(a, b.skip(1))
    }
}

/// A value is in a non-empty sequence exactly if it is the head or in the
/// tail; in a strictly ascending one the tail ascends strictly and lies
/// above the head.
proof fn lemma_head_and_tail(s: Seq<int>)
    requires
        s.len() > 0,
    ensures
        forall|x: int| s.contains(x) <==> x == s[0] || s.skip(1).contains(x),
        strictly_ascending(s) ==> strictly_ascending(s.skip(1)),
        strictly_ascending(s) ==> forall|x: int| s.skip(1).contains(x) ==> s[0] < x,
{
    let t = s.skip(1);
    assert forall|x: int| s.contains(x) <==> x == s[0] || t.contains(x) by {
        if s.contains(x) {
            let i = choose|i: int| 0 <= i < s.len() && s[i] == x;
            if i > 0 {
                assert(t[i - 1] == x);
            }
        }
        if t.contains(x) {
            let i = choose|i: int| 0 <= i < t.len() && t[i] == x;
            assert(s[i + 1] == x);
        }
    }
    if strictly_ascending(s) {
        assert forall|i: int, j: int| 0 <= i < j < t.len() implies t[i] < t[j] by {
            assert(s[i + 1] < s[j + 1]);
        }
        assert forall|x: int| t.contains(x) implies s[0] < x by {
            let i = choose|i: int| 0 <= i < t.len() && t[i] == x;
            assert(s[0] < s[i + 1]);
        }
    }
}

/// The values that two strictly ascending sequences share, walked side by
/// side, come out strictly ascending, and they are exactly the values that
/// occur in both sequences.
pub proof fn lemma_common_values(a: Seq<int>, b: Seq<int>)
    requires
        strictly_ascending(a),
        strictly_ascending(b),
    ensures
        strictly_ascending(common_values(a, b)),
        forall|x: int| common_values(a, b).contains(x) <==> a.contains(x) && b.contains(x),
    decreases a.len() + b.len(),
{
    let c = common_values(a, b);
    if a.len() == 0 || b.len() == 0 {
    } else {
        lemma_head_and_tail(a);
        lemma_head_and_tail(b);
        if a[0] == b[0] {
            let rest = common_values(a.skip(1), b.skip(1));
            lemma_common_values(a.skip(1), b.skip(1));
            assert(c == seq![a[0]] + rest);
            lemma_head_and_tail(c);
            assert(c.skip(1) =~= rest);
            assert forall|i: int, j: int| 0 <= i < j < c.len() implies c[i] < c[j] by {
                let x = rest[j - 1];
                assert(c[j] == x);
                if i > 0 {
                    assert(c[i] == rest[i - 1]);
                } else {
                    assert(rest.contains(x));
                    assert(a.skip(1).contains(x));
                }
            }
        } else if a[0] < b[0] {
            lemma_common_values(a.skip(1), b);
        } else {
            lemma_common_values(a, b.skip(1));
        }
    }
}

/// The values that `a` and `b` share, found by one walk over both from their
/// heads. At each step the two heads are compared: equal heads are handed
/// out once and both sequences move on; otherwise the sequence with the
/// smaller head moves on alone. Of strictly ascending sequences this yields,
/// in strictly ascending order, exactly the values that occur in both.
pub fn ascending_intersection(a: &Vec<i32>, b: &Vec<i32>) -> (common: Vec<i32>)
    ensures
        ints(common@) == common_values(ints(a@), ints(b@)),
        strictly_ascending(ints(a@)) && strictly_ascending(ints(b@)) ==> {
            &&& strictly_ascending(ints(common@))
            &&& forall|x: int|
                ints(common@).contains(x) <==> ints(a@).contains(x) && ints(b@).contains(x)
        },
{
    let mut common: Vec<i32> = Vec::new();
    let mut i: usize = 0;
    let mut j: usize = 0;
    proof {
        assert(ints(a@).skip(0) =~= ints(a@));
        assert(ints(b@).skip(0) =~= ints(b@));
        assert(ints(common@) + common_values(ints(a@), ints(b@)) =~= common_values(
            ints(a@),
            ints(b@),
        ));
    }
    while i < a.len() && j < b.len()
        invariant
            i <= a.len(),
            j <= b.len(),
            ints(common@) + common_values(ints(a@).skip(i as int), ints(b@).skip(j as int))
                == common_values(ints(a@), ints(b@)),
        decreases a.len() - i + b.len() - j,
    {
        let ghost left = ints(a@).skip(i as int);
        let ghost right = ints(b@).skip(j as int);
        let ghost before = ints(common@);
        assert(left[0] == a[i as int] && right[0] == b[j as int]);
        assert(left.skip(1) =~= ints(a@).skip(i + 1));
        assert(right.skip(1) =~= ints(b@).skip(j + 1));
        if a[i] == b[j] {
            common.push(a[i]);
            assert(ints(common@) =~= before.push(left[0]));
            assert(before.push(left[0]) + common_values(left.skip(1), right.skip(1)) =~= before
                + common_values(left, right));
            i += 1;
            j += 1;
        } else if a[i] < b[j] {
            i += 1;
        } else {
            j += 1;
        }
    }
    proof {
        let left = ints(a@).skip(i as int);
        let right = ints(b@).skip(j as int);
        assert(left.len() == 0 || right.len() == 0);
        assert(ints(common@) + common_values(left, right) =~= ints(common@));
        if strictly_ascending(ints(a@)) && strictly_ascending(ints(b@)) {
            lemma_common_values(ints(a@), ints(b@));
        }
    }
    common
}

/// The greatest of `values`, or `None` where there is none.
pub fn greatest(values: &Vec<i32>) -> (top: Option<i32>)
    ensures
        values@.len() == 0 <==> top is None,
        top matches Some(m) ==> values@.contains(m) && forall|k: int|
            0 <= k < values@.len() ==> values@[k] <= m,
{
    if values.len() == 0 {
        return None;
    }
    let mut top: i32 = values[0];
    let mut k: usize = 1;
    while k < values.len()
        invariant
            1 <= k <= values.len(),
            values@.contains(top),
            forall|h: int| 0 <= h < k ==> values@[h] <= top,
        decreases values.len() - k,
    {
        if values[k] > top {
            top = values[k];
        }
        k += 1;
    }
    Some(top)
}

} // verus!
