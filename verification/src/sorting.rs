//! Sorting of `(key, value)` pairs: larger keys first, ties broken by the
//! smaller value. Used for every order the heuristics process items in.
use vstd::prelude::*;

verus! {

/// `a` comes before `b`: a larger key, or an equal key and a smaller value.
pub open spec fn pair_before(a: (u64, usize), b: (u64, usize)) -> bool {
    a.0 > b.0 || (a.0 == b.0 && a.1 < b.1)
}

/// Every pair of `s` comes strictly before every later one.
pub open spec fn sorted_by_key_desc(s: Seq<(u64, usize)>) -> bool {
    forall|i: int, j: int| 0 <= i < j < s.len() ==> pair_before(#[trigger] s[i], #[trigger] s[j])
}

fn before(a: (u64, usize), b: (u64, usize)) -> (r: bool)
    ensures
        r == pair_before(a, b),
{
    a.0 > b.0 || (a.0 == b.0 && a.1 < b.1)
}

/// Sort distinct pairs by descending key, then ascending value (a stable sort
/// by descending key of pairs listed by ascending value).
pub(crate) fn sort_by_key_desc(v: &Vec<(u64, usize)>) -> (r: Vec<(u64, usize)>)
    requires
        v@.no_duplicates(),
    ensures
        r.len() == v.len(),
        forall|x: (u64, usize)| r@.contains(x) <==> v@.contains(x),
        sorted_by_key_desc(r@),
        r@.no_duplicates(),
{
    let mut r: Vec<(u64, usize)> = Vec::new();
    let n = v.len();
    for i in 0..n
        invariant
            n == v.len(),
            v@.no_duplicates(),
            r.len() == i,
            sorted_by_key_desc(r@),
            forall|x: (u64, usize)| r@.contains(x) <==> v@.take(i as int).contains(x),
    {
        let x = v[i];
        proof {
            assert(!v@.take(i as int).contains(x)) by {
                if v@.take(i as int).contains(x) {
                    let k = choose|k: int| 0 <= k < i && v@.take(i as int)[k] == x;
                    assert(v@[k] == v@[i as int]);
                }
            }
        }
        let mut p: usize = 0;
        while p < r.len() && !before(x, r[p])
            invariant
                p <= r.len(),
                r.len() == i,
                forall|k: int| 0 <= k < p ==> !pair_before(x, #[trigger] r@[k]),
            decreases r.len() - p,
        {
            p = p + 1;
        }
        let ghost old_r = r@;
        r.insert(p, x);
        proof {
            assert(r@ == old_r.insert(p as int, x));
            assert(forall|y: (u64, usize)| old_r.contains(y) <==> v@.take(i as int).contains(y));
            assert forall|k: int| 0 <= k < p implies pair_before(#[trigger] old_r[k], x) by {
                assert(old_r.contains(old_r[k]));
                assert(!pair_before(x, old_r[k]));
            }
            assert forall|a: int, b: int| 0 <= a < b < r@.len() implies pair_before(
                #[trigger] r@[a],
                #[trigger] r@[b],
            ) by {
                if b < p {
                } else if a < p && b == p {
                } else if a < p {
                    assert(r@[b] == old_r[b - 1]);
                } else if a == p {
                    assert(r@[b] == old_r[b - 1]);
                    assert(pair_before(x, old_r[p as int]));
                    if b - 1 > p {
                        assert(pair_before(old_r[p as int], old_r[b - 1]));
                    }
                } else {
                    assert(r@[a] == old_r[a - 1]);
                    assert(r@[b] == old_r[b - 1]);
                }
            }
            assert(v@.take(i + 1) == v@.take(i as int).push(x));
            assert forall|y: (u64, usize)| r@.contains(y) <==> v@.take(i + 1).contains(y) by {
                if r@.contains(y) {
                    let k = choose|k: int| 0 <= k < r@.len() && r@[k] == y;
                    if k < p {
                        assert(old_r[k] == y);
                        assert(old_r.contains(y));
                    } else if k > p {
                        assert(old_r[k - 1] == y);
                        assert(old_r.contains(y));
                    }
                    if k == p {
                        assert(v@.take(i + 1)[i as int] == y);
                    } else {
                        assert(v@.take(i as int).contains(y));
                        let m = choose|m: int| 0 <= m < i && v@.take(i as int)[m] == y;
                        assert(v@.take(i + 1)[m] == y);
                    }
                }
                if v@.take(i + 1).contains(y) {
                    if y == x {
                        assert(r@[p as int] == x);
                    } else {
                        assert(v@.take(i as int).contains(y));
                        assert(old_r.contains(y));
                        let k = choose|k: int| 0 <= k < old_r.len() && old_r[k] == y;
                        if k < p {
                            assert(r@[k] == y);
                        } else {
                            assert(r@[k + 1] == y);
                        }
                    }
                }
            }
        }
    }
    proof {
        assert(v@.take(n as int) == v@);
        assert forall|a: int, b: int| 0 <= a < r@.len() && 0 <= b < r@.len() && a != b implies r@[a]
            != r@[b] by {
            if a < b {
                assert(pair_before(r@[a], r@[b]));
            } else {
                assert(pair_before(r@[b], r@[a]));
            }
        }
    }
    r
}

} // verus!
