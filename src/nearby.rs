use vstd::prelude::*;

verus! {

broadcast use {vstd::seq_lib::group_to_multiset_ensures, vstd::multiset::group_multiset_axioms};

/// The candidates of `s` whose key is at most `range`, in their order.
pub open spec fn within<T>(s: Seq<(u32, T)>, range: u32) -> Seq<(u32, T)>
    decreases s.len(),
{
    if s.len() == 0 {
        s
    } else {
        let rest = within(s.drop_last(), range);
        if s.last().0 <= range {
            rest.push(s.last())
        } else {
            rest
        }
    }
}

/// Keys ascend along `s`.
pub open spec fn ascending<T>(s: Seq<(u32, T)>) -> bool {
    forall|i: int, j: int| 0 <= i <= j < s.len() ==> (#[trigger] s[i]).0 <= (#[trigger] s[j]).0
}

/// Keeps the candidates whose key is at most `range` and orders them by
/// ascending key. A key is a distance in any encoding that preserves order.
pub fn nearest_first<T>(candidates: Vec<(u32, T)>, range: u32) -> (r: Vec<(u32, T)>)
    ensures
        ascending(r@),
        r@.to_multiset() == within(candidates@, range).to_multiset(),
{
    let ghost orig = candidates@;
    let mut rest = candidates;
    let mut r: Vec<(u32, T)> = Vec::new();
    while rest.len() > 0
        invariant
            ascending(r@),
            within(orig, range).to_multiset() == within(rest@, range).to_multiset().add(
                r@.to_multiset(),
            ),
        decreases rest@.len(),
    {
        let ghost before = rest@;
        let x = rest.pop().unwrap();
        proof {
            assert(before.drop_last() =~= rest@);
        }
        if x.0 <= range {
            let mut p: usize = 0;
            while p < r.len() && r[p].0 <= x.0
                invariant
                    0 <= p <= r@.len(),
                    forall|k: int| 0 <= k < p ==> (#[trigger] r@[k]).0 <= x.0,
                decreases r@.len() - p,
            {
                p = p + 1;
            }
            let ghost old_r = r@;
            r.insert(p, x);
            proof {
                assert forall|i: int, j: int| 0 <= i <= j < r@.len() implies (#[trigger] r@[i]).0
                    <= (#[trigger] r@[j]).0 by {
                    if i < p && j < p {
                        assert(r@[i] == old_r[i] && r@[j] == old_r[j]);
                    } else if i < p && j == p {
                        assert(r@[i] == old_r[i]);
                    } else if i < p {
                        assert(r@[i] == old_r[i] && r@[j] == old_r[j - 1]);
                    } else if i == p && j > p {
                        assert(r@[j] == old_r[j - 1]);
                        assert(j - 1 >= p);
                        assert(p < old_r.len());
                        assert(old_r[p as int].0 > x.0);
                        assert(old_r[p as int].0 <= old_r[j - 1].0);
                    } else if i > p {
                        assert(r@[i] == old_r[i - 1] && r@[j] == old_r[j - 1]);
                    }
                }
                vstd::seq_lib::to_multiset_insert(old_r, p as int, x);
                assert(within(orig, range).to_multiset() =~= within(rest@, range).to_multiset().add(
                    r@.to_multiset(),
                ));
            }
        } else {
            proof {
                assert(within(before, range) == within(rest@, range));
            }
        }
    }
    r
}

} // verus!
