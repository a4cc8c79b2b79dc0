//! Executable helpers over the vectors the store is built from: copying,
//! membership tests, first-occurrence deduplication, and removal by value
//! from a strictly increasing id list.

use vstd::prelude::*;

use crate::seqs::{dedup, strictly_increasing, views_of};

verus! {

/// Copies a byte payload.
pub fn copy_bytes(v: &Vec<u8>) -> (r: Vec<u8>)
    ensures
        r@ == v@,
{
    let mut r: Vec<u8> = Vec::new();
    let mut k: usize = 0;
    while k < v.len()
        invariant
            k <= v.len(),
            r@ =~= v@.subrange(0, k as int),
        decreases v.len() - k,
    {
        r.push(v[k]);
        k += 1;
    }
    assert(r@ =~= v@);
    r
}

/// Copies a list of strings, keeping each string's characters.
pub fn copy_strings(v: &Vec<String>) -> (r: Vec<String>)
    ensures
        r@ == v@,
{
    let mut r: Vec<String> = Vec::new();
    let mut k: usize = 0;
    while k < v.len()
        invariant
            k <= v.len(),
            r@ =~= v@.subrange(0, k as int),
        decreases v.len() - k,
    {
        r.push(v[k].clone());
        k += 1;
    }
    assert(r@ =~= v@);
    r
}

/// True iff some string in `v` has the same characters as `a`.
pub fn contains_string(v: &Vec<String>, a: &String) -> (r: bool)
    ensures
        r == views_of(v@).contains(a@),
{
    let mut k: usize = 0;
    while k < v.len()
        invariant
            k <= v.len(),
            forall|t: int| 0 <= t < k ==> (#[trigger] v@[t])@ != a@,
        decreases v.len() - k,
    {
        if v[k].eq(a) {
            assert(views_of(v@)[k as int] == a@);
            return true;
        }
        k += 1;
    }
    assert forall|t: int| 0 <= t < views_of(v@).len() implies views_of(v@)[t] != a@ by {
        assert(views_of(v@)[t] == v@[t]@);
    }
    false
}

/// Drops repeated strings, keeping the first occurrence of each in order.
pub fn dedup_strings(v: &Vec<String>) -> (r: Vec<String>)
    ensures
        views_of(r@) == dedup(views_of(v@)),
{
    let mut r: Vec<String> = Vec::new();
    let mut k: usize = 0;
    while k < v.len()
        invariant
            k <= v.len(),
            views_of(r@) == dedup(views_of(v@.subrange(0, k as int))),
        decreases v.len() - k,
    {
        let ghost pre = views_of(v@.subrange(0, k as int));
        let ghost next = views_of(v@.subrange(0, k as int + 1));
        proof {
            assert(next.drop_last() =~= pre);
            assert(next.last() == v@[k as int]@);
        }
        if !contains_string(&r, &v[k]) {
            r.push(v[k].clone());
            proof {
                assert(views_of(r@) =~= dedup(pre).push(v@[k as int]@));
            }
        }
        k += 1;
    }
    proof {
        assert(v@.subrange(0, v@.len() as int) =~= v@);
    }
    r
}

/// Copies an id list.
pub fn copy_ids(v: &Vec<usize>) -> (r: Vec<usize>)
    ensures
        r@ == v@,
{
    let mut r: Vec<usize> = Vec::new();
    let mut k: usize = 0;
    while k < v.len()
        invariant
            k <= v.len(),
            r@ =~= v@.subrange(0, k as int),
        decreases v.len() - k,
    {
        r.push(v[k]);
        k += 1;
    }
    assert(r@ =~= v@);
    r
}

/// Appends an id larger than every member of a strictly increasing list,
/// returning the extended list.
pub fn append_id(ids: &Vec<usize>, x: usize) -> (r: Vec<usize>)
    requires
        strictly_increasing(ids@),
        forall|y: usize| ids@.contains(y) ==> y < x,
    ensures
        strictly_increasing(r@),
        forall|y: usize| r@.contains(y) <==> ids@.contains(y) || y == x,
{
    let mut r = copy_ids(ids);
    proof {
        assert forall|t: int| 0 <= t < r@.len() implies r@[t] < x by {
            assert(ids@.contains(ids@[t]));
        }
    }
    r.push(x);
    proof {
        assert forall|y: usize| r@.contains(y) <==> ids@.contains(y) || y == x by {
            if ids@.contains(y) {
                let t = choose|t: int| 0 <= t < ids@.len() && ids@[t] == y;
                assert(r@[t] == y);
            }
            if y == x {
                assert(r@.last() == y);
            }
            if r@.contains(y) {
                let t = choose|t: int| 0 <= t < r@.len() && r@[t] == y;
                if t < ids@.len() {
                    assert(ids@[t] == y);
                }
            }
        }
    }
    r
}

/// Removes the id `x` from a strictly increasing id list, by value.
/// The result holds exactly the other members, still in increasing order.
pub fn remove_id(ids: &Vec<usize>, x: usize) -> (r: Vec<usize>)
    requires
        strictly_increasing(ids@),
    ensures
        strictly_increasing(r@),
        forall|y: usize| r@.contains(y) <==> ids@.contains(y) && y != x,
{
    let mut r: Vec<usize> = Vec::new();
    let mut k: usize = 0;
    while k < ids.len()
        invariant
            k <= ids.len(),
            strictly_increasing(ids@),
            strictly_increasing(r@),
            forall|t: int| 0 <= t < r@.len() ==> exists|u: int| 0 <= u < k && ids@[u] == #[trigger] r@[t],
            forall|y: usize| r@.contains(y) <==> ids@.subrange(0, k as int).contains(y) && y != x,
        decreases ids.len() - k,
    {
        let ghost old_r = r@;
        if ids[k] != x {
            proof {
                assert forall|t: int| 0 <= t < r@.len() implies r@[t] < ids@[k as int] by {
                    let u = choose|u: int| 0 <= u < k && ids@[u] == r@[t];
                    assert(ids@[u] < ids@[k as int]);
                }
            }
            r.push(ids[k]);
        }
        proof {
            assert forall|y: usize|
                r@.contains(y) <==> ids@.subrange(0, k as int + 1).contains(y) && y != x by {
                let pre = ids@.subrange(0, k as int);
                let next = ids@.subrange(0, k as int + 1);
                assert(next.drop_last() =~= pre);
                assert(next.last() == ids@[k as int]);
                if next.contains(y) && y != x {
                    let t = choose|t: int| 0 <= t < next.len() && next[t] == y;
                    if t < k {
                        assert(pre[t] == y);
                        assert(old_r.contains(y));
                        if ids@[k as int] != x {
                            let u = choose|u: int| 0 <= u < old_r.len() && old_r[u] == y;
                            assert(r@[u] == y);
                        }
                    } else {
                        assert(y == ids@[k as int]);
                        assert(r@.last() == y);
                    }
                }
                if r@.contains(y) {
                    let t = choose|t: int| 0 <= t < r@.len() && r@[t] == y;
                    if ids@[k as int] != x && t == r@.len() - 1 {
                        assert(next[k as int] == y);
                    } else {
                        assert(old_r[t] == y);
                        assert(old_r.contains(y));
                        let u = choose|u: int| 0 <= u < pre.len() && pre[u] == y;
                        assert(next[u] == y);
                    }
                }
            }
        }
        k += 1;
    }
    proof {
        assert(ids@.subrange(0, ids@.len() as int) =~= ids@);
    }
    r
}

} // verus!
