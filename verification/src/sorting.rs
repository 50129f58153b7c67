//! Putting numbers in order.
use vstd::prelude::*;
use vstd::seq_lib::{to_multiset_build, to_multiset_insert};

verus! {

/// Whether no number is larger than a later one.
pub open spec fn ascending(s: Seq<i64>) -> bool {
    forall|i: int, j: int| 0 <= i <= j < s.len() ==> s[i] <= s[j]
}

/// The numbers of `input` in ascending order: each as often as `input`
/// holds it.
pub fn sorted(input: &[i64]) -> (result: Vec<i64>)
    ensures
        ascending(result@),
        result@.to_multiset() == input@.to_multiset(),
        result.len() == input.len(),
{
    let mut result: Vec<i64> = Vec::new();
    let mut i: usize = 0;
    assert(input@.take(0) =~= Seq::<i64>::empty());
    while i < input.len()
        invariant
            i <= input.len(),
            result.len() == i,
            ascending(result@),
            result@.to_multiset() == input@.take(i as int).to_multiset(),
        decreases input.len() - i,
    {
        let a = input[i];
        let mut at: usize = 0;
        while at < result.len() && result[at] <= a
            invariant
                at <= result.len(),
                forall|k: int| 0 <= k < at ==> result[k] <= a,
            decreases result.len() - at,
        {
            at += 1;
        }
        let ghost before = result@;
        result.insert(at, a);
        proof {
            to_multiset_insert(before, at as int, a);
            to_multiset_build(input@.take(i as int), a);
            assert(input@.take(i as int + 1) =~= input@.take(i as int).push(a));
            assert forall|x: int, y: int| 0 <= x <= y < result@.len() implies result@[x]
                <= result@[y] by {
                if x < at && y > at {
                    assert(before[x] <= before[y - 1]);
                } else if x > at {
                    assert(before[x - 1] <= before[y - 1]);
                } else if y < at {
                    assert(before[x] <= before[y]);
                } else if x == at && y > at {
                    assert(before[at as int] <= before[y - 1]);
                }
            }
        }
        i += 1;
    }
    assert(input@.take(i as int) =~= input@);
    result
}

} // verus!
