//! Spec-level helpers for the sequences that the store reasons about:
//! strictly increasing id lists (postings), duplicate-free attribute lists,
//! and first-occurrence deduplication.

use vstd::prelude::*;

verus! {

/// The ids in `s` are in strictly increasing order (sorted, no repeats).
pub open spec fn strictly_increasing(s: Seq<usize>) -> bool {
    forall|k1: int, k2: int| 0 <= k1 < k2 < s.len() ==> s[k1] < s[k2]
}

/// No element of `s` occurs twice.
pub open spec fn distinct<A>(s: Seq<A>) -> bool {
    forall|k1: int, k2: int| 0 <= k1 < k2 < s.len() ==> s[k1] != s[k2]
}

/// The character sequences of a sequence of strings.
pub open spec fn views_of(ss: Seq<String>) -> Seq<Seq<char>> {
    ss.map_values(|s: String| s@)
}

/// `s` with every repeated element dropped, keeping first occurrences
/// in their original order.
pub open spec fn dedup<A>(s: Seq<A>) -> Seq<A>
    decreases s.len(),
{
    if s.len() == 0 {
        s
    } else {
        let pre = dedup(s.drop_last());
        if pre.contains(s.last()) {
            pre
        } else {
            pre.push(s.last())
        }
    }
}

/// Deduplication keeps exactly the elements of the original sequence.
pub proof fn lemma_dedup_contains<A>(s: Seq<A>)
    ensures
        forall|x: A| dedup(s).contains(x) <==> s.contains(x),
    decreases s.len(),
{
    if s.len() > 0 {
        lemma_dedup_contains(s.drop_last());
        assert forall|x: A| dedup(s).contains(x) <==> s.contains(x) by {
            let pre = dedup(s.drop_last());
            if s.contains(x) {
                let k = choose|k: int| 0 <= k < s.len() && s[k] == x;
                if k < s.len() - 1 {
                    assert(s.drop_last()[k] == x);
                    assert(s.drop_last().contains(x));
                    if !pre.contains(s.last()) {
                        let t = choose|t: int| 0 <= t < pre.len() && pre[t] == x;
                        assert(pre.push(s.last())[t] == x);
                    }
                } else {
                    assert(x == s.last());
                    if !pre.contains(s.last()) {
                        assert(pre.push(s.last()).last() == x);
                    }
                }
            }
            if dedup(s).contains(x) {
                if pre.contains(s.last()) {
                    assert(s.drop_last().contains(x));
                    let k = choose|k: int| 0 <= k < s.drop_last().len() && s.drop_last()[k] == x;
                    assert(s[k] == x);
                } else {
                    let t = choose|t: int| 0 <= t < pre.len() + 1 && pre.push(s.last())[t] == x;
                    if t < pre.len() {
                        assert(pre.contains(x));
                        assert(s.drop_last().contains(x));
                        let k = choose|k: int| 0 <= k < s.drop_last().len() && s.drop_last()[k] == x;
                        assert(s[k] == x);
                    } else {
                        assert(s.last() == x);
                        assert(s[s.len() - 1] == x);
                    }
                }
            }
        }
    }
}

/// Deduplication yields a duplicate-free sequence.
pub proof fn lemma_dedup_distinct<A>(s: Seq<A>)
    ensures
        distinct(dedup(s)),
    decreases s.len(),
{
    if s.len() > 0 {
        lemma_dedup_distinct(s.drop_last());
        let pre = dedup(s.drop_last());
        if !pre.contains(s.last()) {
            assert forall|k1: int, k2: int|
                0 <= k1 < k2 < pre.push(s.last()).len() implies pre.push(s.last())[k1]
                != pre.push(s.last())[k2] by {
                if k2 == pre.len() {
                    assert(pre.push(s.last())[k1] == pre[k1]);
                    assert(pre.contains(pre[k1]));
                }
            }
        }
    }
}

/// On a duplicate-free sequence, deduplication changes nothing.
pub proof fn lemma_dedup_of_distinct<A>(s: Seq<A>)
    requires
        distinct(s),
    ensures
        dedup(s) == s,
    decreases s.len(),
{
    if s.len() > 0 {
        assert(distinct(s.drop_last()));
        lemma_dedup_of_distinct(s.drop_last());
        let pre = dedup(s.drop_last());
        if pre.contains(s.last()) {
            let k = choose|k: int| 0 <= k < pre.len() && pre[k] == s.last();
            assert(s[k] == s[s.len() - 1]);
            assert(false);
        }
        assert(dedup(s) =~= s);
    }
}

/// Two strictly increasing sequences with the same members are equal:
/// the sorted, duplicate-free enumeration of a set of ids is unique.
pub proof fn lemma_strictly_increasing_same_members(s1: Seq<usize>, s2: Seq<usize>)
    requires
        strictly_increasing(s1),
        strictly_increasing(s2),
        forall|y: usize| s1.contains(y) <==> s2.contains(y),
    ensures
        s1 == s2,
    decreases s1.len(),
{
    if s1.len() == 0 {
        if s2.len() > 0 {
            assert(s2.contains(s2[0]));
        }
        assert(s1 =~= s2);
    } else {
        assert(s1.contains(s1[0]));
        assert(s2.contains(s1[0]));
        if s2.len() == 0 {
            assert(false);
        }
        let k1 = choose|k: int| 0 <= k < s2.len() && s2[k] == s1[0];
        assert(s2.contains(s2[0]));
        assert(s1.contains(s2[0]));
        let k2 = choose|k: int| 0 <= k < s1.len() && s1[k] == s2[0];
        assert(s2[0] <= s2[k1]);
        assert(s1[0] <= s1[k2]);
        assert(s1[0] == s2[0]);
        let t1 = s1.drop_first();
        let t2 = s2.drop_first();
        assert forall|y: usize| t1.contains(y) <==> t2.contains(y) by {
            lemma_tail_contains(s1, y);
            lemma_tail_contains(s2, y);
        }
        lemma_strictly_increasing_same_members(t1, t2);
        assert forall|k: int| 0 <= k < s1.len() implies s1[k] == s2[k] by {
            if k > 0 {
                assert(t1[k - 1] == s1[k]);
                assert(t2[k - 1] == s2[k]);
            }
        }
        assert(s1 =~= s2);
    }
}

/// For a strictly increasing sequence, the tail holds exactly the members
/// larger than the head.
proof fn lemma_tail_contains(s: Seq<usize>, y: usize)
    requires
        strictly_increasing(s),
        s.len() > 0,
    ensures
        s.drop_first().contains(y) <==> s.contains(y) && y != s[0],
{
    let t = s.drop_first();
    if t.contains(y) {
        let k = choose|k: int| 0 <= k < t.len() && t[k] == y;
        assert(s[k + 1] == y);
        assert(s[0] < s[k + 1]);
    }
    if s.contains(y) && y != s[0] {
        let k = choose|k: int| 0 <= k < s.len() && s[k] == y;
        assert(k != 0);
        assert(t[k - 1] == y);
    }
}

} // verus!
