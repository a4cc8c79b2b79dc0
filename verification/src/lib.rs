//! An in-process attribute-indexed value store.
//!
//! The store keeps opaque byte payloads, each tagged with a set of string
//! attributes, and answers conjunctive (AND) queries across those attributes.
//! Internally it maintains a forward index (attribute to postings list of
//! value ids) and a reverse index (value id to attribute list) that are kept
//! mutually consistent under insertion and deletion.

use vstd::prelude::*;

pub mod seqs;
mod vecs;

use crate::seqs::{
    dedup, distinct, lemma_dedup_contains, lemma_dedup_distinct, lemma_dedup_of_distinct,
    strictly_increasing, views_of,
};
use crate::vecs::{append_id, contains_string, copy_bytes, copy_strings, dedup_strings, remove_id};
use vstd::pervasive::VecAdditionalExecFns;

verus! {

/// One forward-index entry: an attribute and the ids of the live values
/// that currently carry it, in ascending (insertion) order.
struct Posting {
    attribute: String,
    ids: Vec<usize>,
}

/// The errors the store can report.
#[derive(Clone, Copy, Debug, PartialEq, Eq, Structural)]
pub enum CacheError {
    /// A value-targeted deletion named an id that was never assigned or was
    /// already deleted.
    NotFound,
    /// The forward and reverse indexes disagreed during a compound delete.
    /// Never reached in correct operation; kept as a defensive signal.
    InternalInconsistency,
}

/// An attribute-indexed store of byte values.
///
/// Values are referenced by the integer id assigned at insertion; ids grow
/// monotonically and are never reused, even after deletion.
pub struct AttributesCache {
    /// Append-only value log; the index of a payload is its value id.
    values_store: Vec<Vec<u8>>,
    /// Forward index: one postings entry per known attribute.
    attributes_store: Vec<Posting>,
    /// Reverse index: for each assigned id, its attribute list while the
    /// value is live, or nothing once it has been deleted.
    value_to_attributes_store: Vec<Option<Vec<String>>>,
}

impl AttributesCache {
    /// The id the next insertion will receive; ids `0 .. next_id` have been
    /// assigned at some point.
    pub closed spec fn next_id(self) -> int {
        self.values_store@.len() as int
    }

    /// Whether id `i` has been assigned and not deleted.
    pub closed spec fn is_live(self, i: int) -> bool {
        &&& 0 <= i < self.value_to_attributes_store@.len()
        &&& self.value_to_attributes_store@[i] is Some
    }

    /// The payload stored under id `i`.
    pub closed spec fn value_at(self, i: int) -> Seq<u8> {
        self.values_store@[i]@
    }

    /// The attribute list recorded for id `i` (duplicate-free while the
    /// store is well formed).
    pub closed spec fn attrs_at(self, i: int) -> Seq<Seq<char>> {
        views_of(self.value_to_attributes_store@[i]->0@)
    }

    /// Whether the live value `i` carries attribute `a`.
    pub open spec fn has_attr(self, i: int, a: Seq<char>) -> bool {
        self.is_live(i) && self.attrs_at(i).contains(a)
    }

    /// Whether the live value `i` carries every attribute of the query `q`:
    /// its attribute set is a superset of `q`.
    pub open spec fn matches_query(self, i: int, q: Seq<Seq<char>>) -> bool {
        self.is_live(i) && forall|k: int| 0 <= k < q.len() ==> self.has_attr(i, #[trigger] q[k])
    }

    /// The forward index as a sequence of entries.
    spec fn fwd(self) -> Seq<Posting> {
        self.attributes_store@
    }

    /// Whether the forward index has an entry for attribute `a`.
    spec fn fwd_has(self, a: Seq<char>) -> bool {
        exists|j: int| 0 <= j < self.fwd().len() && (#[trigger] self.fwd()[j]).attribute@ == a
    }

    /// Well-formedness: the two indexes agree.
    ///
    /// - the reverse index covers exactly the assigned ids;
    /// - forward entries name pairwise different attributes;
    /// - every postings list is strictly increasing;
    /// - an id sits in an attribute's postings list iff that value is live
    ///   and carries the attribute;
    /// - every attribute of a live value has a forward entry;
    /// - recorded attribute lists are duplicate-free.
    pub closed spec fn wf(self) -> bool {
        &&& self.value_to_attributes_store@.len() == self.values_store@.len()
        &&& forall|j1: int, j2: int|
            0 <= j1 < j2 < self.fwd().len() ==> (#[trigger] self.fwd()[j1]).attribute@ != (
            #[trigger] self.fwd()[j2]).attribute@
        &&& forall|j: int|
            0 <= j < self.fwd().len() ==> strictly_increasing((#[trigger] self.fwd()[j]).ids@)
        &&& forall|j: int, i: usize|
            0 <= j < self.fwd().len() ==> ((#[trigger] self.fwd()[j].ids@.contains(i))
                <==> self.is_live(i as int) && self.attrs_at(i as int).contains(
                self.fwd()[j].attribute@,
            ))
        &&& forall|i: int, k: int|
            self.is_live(i) && 0 <= k < self.attrs_at(i).len() ==> self.fwd_has(
                #[trigger] self.attrs_at(i)[k],
            )
        &&& forall|i: int| self.is_live(i) ==> distinct(#[trigger] self.attrs_at(i))
    }

    /// Finds the forward-index entry for attribute `a`, if one exists.
    fn find_entry(entries: &Vec<Posting>, a: &String) -> (r: Option<usize>)
        ensures
            match r {
                Some(j) => j < entries@.len() && entries@[j as int].attribute@ == a@,
                None => forall|j: int|
                    0 <= j < entries@.len() ==> (#[trigger] entries@[j]).attribute@ != a@,
            },
    {
        let mut j: usize = 0;
        while j < entries.len()
            invariant
                j <= entries.len(),
                forall|t: int| 0 <= t < j ==> (#[trigger] entries@[t]).attribute@ != a@,
            decreases entries.len() - j,
        {
            if entries[j].attribute.eq(a) {
                return Some(j);
            }
            j += 1;
        }
        None
    }

    /// Creates an empty store: no ids assigned, no attributes known.
    pub fn new() -> (r: Self)
        ensures
            r.wf(),
            r.next_id() == 0,
            forall|i: int| !r.is_live(i),
    {
        AttributesCache {
            values_store: Vec::new(),
            attributes_store: Vec::new(),
            value_to_attributes_store: Vec::new(),
        }
    }

    /// Inserts a value tagged with the given attributes and returns the
    /// fresh id assigned to it.
    ///
    /// The value is appended to the log, the id is added to the postings
    /// list of every supplied attribute (repeats among the attributes count
    /// once), and the id's attribute list is recorded. Insertion never
    /// fails; ids grow by one per call and are never reused.
    #[verifier::loop_isolation(false)]
    pub fn set(&mut self, value: Vec<u8>, attributes: Vec<String>) -> (id: usize)
        requires
            old(self).wf(),
        ensures
            final(self).wf(),
            id as int == old(self).next_id(),
            final(self).next_id() == old(self).next_id() + 1,
            final(self).is_live(id as int),
            final(self).value_at(id as int) == value@,
            final(self).attrs_at(id as int) == dedup(views_of(attributes@)),
            forall|a: Seq<char>|
                final(self).has_attr(id as int, a) <==> views_of(attributes@).contains(a),
            distinct(views_of(attributes@)) ==> final(self).attrs_at(id as int) == views_of(
                attributes@,
            ),
            forall|i: int| i != id ==> final(self).is_live(i) == old(self).is_live(i),
            forall|i: int|
                i != id && old(self).is_live(i) ==> final(self).attrs_at(i) == old(self).attrs_at(
                    i,
                ),
            forall|i: int|
                0 <= i < old(self).next_id() ==> final(self).value_at(i) == old(self).value_at(i),
    {
        let ghost q_in = views_of(attributes@);
        proof {
            lemma_dedup_contains(q_in);
            lemma_dedup_distinct(q_in);
            if distinct(q_in) {
                lemma_dedup_of_distinct(q_in);
            }
        }
        let deduped = dedup_strings(&attributes);
        let stored = copy_strings(&deduped);
        let ghost q = views_of(deduped@);
        let id = self.values_store.len();
        self.values_store.push(value);
        self.value_to_attributes_store.push(Some(stored));
        let ghost s0 = *self;
        proof {
            assert(s0.attrs_at(id as int) =~= q);
            assert(q.subrange(0, 0) =~= Seq::<Seq<char>>::empty());
            assert(self.fwd() == old(self).fwd());
            assert forall|j1: int, j2: int|
                0 <= j1 < j2 < self.fwd().len() implies (#[trigger] self.fwd()[j1]).attribute@ != (
            #[trigger] self.fwd()[j2]).attribute@ by {
                assert(old(self).fwd()[j1] == self.fwd()[j1]);
                assert(old(self).fwd()[j2] == self.fwd()[j2]);
            }
            assert forall|j: int| 0 <= j < self.fwd().len() implies strictly_increasing(
                (#[trigger] self.fwd()[j]).ids@,
            ) by {
                assert(old(self).fwd()[j] == self.fwd()[j]);
            }
            assert forall|j: int, i: usize|
                0 <= j < self.fwd().len() && i != id implies ((#[trigger] self.fwd()[
            j].ids@.contains(i)) <==> self.is_live(i as int) && self.attrs_at(i as int).contains(
                self.fwd()[j].attribute@,
            )) by {
                assert(old(self).fwd()[j] == self.fwd()[j]);
                assert((old(self).fwd()[j].ids@.contains(i)) <==> old(self).is_live(i as int)
                    && old(self).attrs_at(i as int).contains(old(self).fwd()[j].attribute@));
            }
            assert forall|j: int|
                0 <= j < self.fwd().len() implies ((#[trigger] self.fwd()[j].ids@.contains(id))
                <==> q.subrange(0, 0).contains(self.fwd()[j].attribute@)) by {
                assert(old(self).fwd()[j] == self.fwd()[j]);
                assert((old(self).fwd()[j].ids@.contains(id)) ==> old(self).is_live(id as int));
            }
        }
        let mut t: usize = 0;
        while t < deduped.len()
            invariant
                t <= deduped.len(),
                self.values_store == s0.values_store,
                self.value_to_attributes_store == s0.value_to_attributes_store,
                s0.fwd().len() <= self.fwd().len(),
                forall|j: int|
                    0 <= j < s0.fwd().len() ==> (#[trigger] self.fwd()[j]).attribute@
                        == s0.fwd()[j].attribute@,
                forall|j1: int, j2: int|
                    0 <= j1 < j2 < self.fwd().len() ==> (#[trigger] self.fwd()[j1]).attribute@ != (
                    #[trigger] self.fwd()[j2]).attribute@,
                forall|j: int|
                    0 <= j < self.fwd().len() ==> strictly_increasing(
                        (#[trigger] self.fwd()[j]).ids@,
                    ),
                forall|j: int, i: usize|
                    0 <= j < self.fwd().len() && i != id ==> ((#[trigger] self.fwd()[
                    j].ids@.contains(i)) <==> self.is_live(i as int) && self.attrs_at(
                        i as int,
                    ).contains(self.fwd()[j].attribute@)),
                forall|j: int|
                    0 <= j < self.fwd().len() ==> ((#[trigger] self.fwd()[j].ids@.contains(id))
                        <==> q.subrange(0, t as int).contains(self.fwd()[j].attribute@)),
                forall|k: int| 0 <= k < t ==> self.fwd_has(#[trigger] q[k]),
            decreases deduped.len() - t,
        {
            let ghost fwd_pre = self.fwd();
            proof {
                assert(q.subrange(0, t as int + 1).drop_last() =~= q.subrange(0, t as int));
                assert(q.subrange(0, t as int + 1).last() == q[t as int]);
            }
            match Self::find_entry(&self.attributes_store, &deduped[t]) {
                Some(j) => {
                    proof {
                        // The fresh id is not yet in this entry: its name sits at
                        // position t of the duplicate-free q, outside the prefix.
                        if q.subrange(0, t as int).contains(q[t as int]) {
                            let u = choose|u: int|
                                0 <= u < t && q.subrange(0, t as int)[u] == q[t as int];
                            assert(q[u] == q[t as int]);
                        }
                        assert(!self.fwd()[j as int].ids@.contains(id));
                        assert forall|y: usize|
                            self.fwd()[j as int].ids@.contains(y) implies y < id by {
                            if y != id {
                                assert(self.is_live(y as int));
                            }
                        }
                    }
                    let ids2 = append_id(&self.attributes_store[j].ids, id);
                    let name2 = self.attributes_store[j].attribute.clone();
                    self.attributes_store.set(j, Posting { attribute: name2, ids: ids2 });
                    proof {
                        assert forall|j2: int, i: usize|
                            0 <= j2 < self.fwd().len() && i != id implies ((#[trigger] self.fwd()[
                        j2].ids@.contains(i)) <==> self.is_live(i as int) && self.attrs_at(
                            i as int,
                        ).contains(self.fwd()[j2].attribute@)) by {
                            if j2 != j {
                                assert(self.fwd()[j2] == fwd_pre[j2]);
                            }
                        }
                        assert forall|j2: int|
                            0 <= j2 < self.fwd().len() implies ((#[trigger] self.fwd()[
                        j2].ids@.contains(id)) <==> q.subrange(0, t as int + 1).contains(
                            self.fwd()[j2].attribute@,
                        )) by {
                            if j2 == j {
                                assert(self.fwd()[j2].ids@.contains(id));
                            } else {
                                assert(self.fwd()[j2] == fwd_pre[j2]);
                                assert(self.fwd()[j2].attribute@ != q[t as int]);
                            }
                        }
                        assert(self.fwd()[j as int].attribute@ == q[t as int]);
                        assert(self.fwd_has(q[t as int]));
                        assert forall|k: int| 0 <= k < t implies self.fwd_has(
                            #[trigger] q[k],
                        ) by {
                            let j3 = choose|j3: int|
                                0 <= j3 < fwd_pre.len() && (#[trigger] fwd_pre[j3]).attribute@
                                    == q[k];
                            assert(self.fwd()[j3].attribute@ == fwd_pre[j3].attribute@);
                        }
                    }
                }
                None => {
                    let mut ids2: Vec<usize> = Vec::new();
                    ids2.push(id);
                    let name2 = deduped[t].clone();
                    self.attributes_store.push(Posting { attribute: name2, ids: ids2 });
                    proof {
                        let jn = self.fwd().len() - 1;
                        assert forall|y: usize| self.fwd()[jn].ids@.contains(y) implies y
                            == id by {
                            let u = choose|u: int|
                                0 <= u < self.fwd()[jn].ids@.len() && self.fwd()[jn].ids@[u] == y;
                        }
                        assert forall|j2: int, i: usize|
                            0 <= j2 < self.fwd().len() && i != id implies ((#[trigger] self.fwd()[
                        j2].ids@.contains(i)) <==> self.is_live(i as int) && self.attrs_at(
                            i as int,
                        ).contains(self.fwd()[j2].attribute@)) by {
                            if j2 < fwd_pre.len() {
                                assert(self.fwd()[j2] == fwd_pre[j2]);
                            } else {
                                // A new entry: no other live value carries this
                                // attribute, else the old forward index would
                                // already hold it and the search would have
                                // found it.
                                assert(!self.fwd()[j2].ids@.contains(i));
                                if self.is_live(i as int) && self.attrs_at(i as int).contains(
                                    q[t as int],
                                ) {
                                    let k = choose|k: int|
                                        0 <= k < old(self).attrs_at(i as int).len() && old(
                                            self,
                                        ).attrs_at(i as int)[k] == q[t as int];
                                    assert(old(self).fwd_has(old(self).attrs_at(i as int)[k]));
                                    let j3 = choose|j3: int|
                                        0 <= j3 < old(self).fwd().len() && (#[trigger] old(
                                            self,
                                        ).fwd()[j3]).attribute@ == q[t as int];
                                    assert(fwd_pre[j3].attribute@ == q[t as int]);
                                    assert(false);
                                }
                            }
                        }
                        assert forall|j2: int|
                            0 <= j2 < self.fwd().len() implies ((#[trigger] self.fwd()[
                        j2].ids@.contains(id)) <==> q.subrange(0, t as int + 1).contains(
                            self.fwd()[j2].attribute@,
                        )) by {
                            if j2 == self.fwd().len() - 1 {
                                assert(self.fwd()[j2].ids@[0] == id);
                                assert(self.fwd()[j2].ids@.contains(id));
                            } else {
                                assert(self.fwd()[j2] == fwd_pre[j2]);
                                assert(self.fwd()[j2].attribute@ != q[t as int]);
                            }
                        }
                        assert(self.fwd()[jn as int].attribute@ == q[t as int]);
                        assert(self.fwd_has(q[t as int]));
                        assert forall|k: int| 0 <= k < t implies self.fwd_has(
                            #[trigger] q[k],
                        ) by {
                            let j3 = choose|j3: int|
                                0 <= j3 < fwd_pre.len() && (#[trigger] fwd_pre[j3]).attribute@
                                    == q[k];
                            assert(self.fwd()[j3].attribute@ == fwd_pre[j3].attribute@);
                        }
                    }
                }
            }
            t += 1;
        }
        proof {
            assert(q.subrange(0, deduped@.len() as int) =~= q);
            assert(self.attrs_at(id as int) =~= q);
            // Consistency for the fresh id, and coverage, now close over the
            // whole attribute list.
            assert forall|j: int, i: usize|
                0 <= j < self.fwd().len() implies ((#[trigger] self.fwd()[j].ids@.contains(i))
                <==> self.is_live(i as int) && self.attrs_at(i as int).contains(
                self.fwd()[j].attribute@,
            )) by {
                if i == id {
                    assert((self.fwd()[j].ids@.contains(id)) <==> q.contains(
                        self.fwd()[j].attribute@,
                    ));
                }
            }
            assert forall|i: int, k: int|
                self.is_live(i) && 0 <= k < self.attrs_at(i).len() implies self.fwd_has(
                #[trigger] self.attrs_at(i)[k],
            ) by {
                if i == id {
                    assert(self.attrs_at(i)[k] == q[k]);
                } else {
                    assert(self.attrs_at(i) == old(self).attrs_at(i));
                    assert(old(self).fwd_has(old(self).attrs_at(i)[k]));
                    let j3 = choose|j3: int|
                        0 <= j3 < old(self).fwd().len() && (#[trigger] old(self).fwd()[
                        j3]).attribute@ == old(self).attrs_at(i)[k];
                    assert(s0.fwd()[j3] == old(self).fwd()[j3]);
                    assert(self.fwd()[j3].attribute@ == s0.fwd()[j3].attribute@);
                }
            }
            assert forall|i: int| self.is_live(i) implies distinct(
                #[trigger] self.attrs_at(i),
            ) by {
                if i != id {
                    assert(self.attrs_at(i) == old(self).attrs_at(i));
                }
            }
        }
        id
    }

    /// Returns the attribute list of a live value, or nothing if the id was
    /// never assigned or has been deleted. Read-only.
    pub fn get_by_value(&self, id: usize) -> (r: Option<Vec<String>>)
        requires
            self.wf(),
        ensures
            r is Some <==> self.is_live(id as int),
            r is Some ==> views_of(r->0@) == self.attrs_at(id as int),
    {
        if id < self.value_to_attributes_store.len() {
            match &self.value_to_attributes_store[id] {
                Some(v) => Some(copy_strings(v)),
                None => None,
            }
        } else {
            None
        }
    }

    /// Whether the live value `i` carries the attribute `a`, read from the
    /// reverse index.
    fn rev_contains(&self, i: usize, a: &String) -> (r: bool)
        requires
            self.is_live(i as int),
        ensures
            r == self.attrs_at(i as int).contains(a@),
    {
        match &self.value_to_attributes_store[i] {
            Some(av) => contains_string(av, a),
            None => {
                // Unreachable: a live id always has a recorded attribute list.
                proof {
                    assert(false);
                }
                false
            },
        }
    }

    /// Answers the conjunctive (AND) query for the given attributes.
    ///
    /// Returns the `(id, payload)` pairs of exactly the live values whose
    /// attribute set holds every queried attribute, in ascending id
    /// (insertion) order. An empty query and a query naming an unknown
    /// attribute both return an empty result. Read-only.
    #[verifier::loop_isolation(false)]
    pub fn get_by_attributes(&self, attributes: Vec<String>) -> (r: Vec<(usize, Vec<u8>)>)
        requires
            self.wf(),
        ensures
            forall|k: int|
                0 <= k < r@.len() ==> self.matches_query((#[trigger] r@[k]).0 as int, views_of(
                    attributes@,
                )) && r@[k].1@ == self.value_at(r@[k].0 as int),
            forall|i: usize|
                attributes@.len() > 0 && self.matches_query(i as int, views_of(attributes@))
                    ==> exists|k: int| 0 <= k < r@.len() && (#[trigger] r@[k]).0 == i,
            attributes@.len() == 0 ==> r@.len() == 0,
            forall|k1: int, k2: int| 0 <= k1 < k2 < r@.len() ==> r@[k1].0 < r@[k2].0,
    {
        let ghost q = views_of(attributes@);
        let mut r: Vec<(usize, Vec<u8>)> = Vec::new();
        if attributes.len() == 0 {
            return r;
        }
        let j = match Self::find_entry(&self.attributes_store, &attributes[0]) {
            Some(j) => j,
            None => {
                // No forward entry: no live value carries the first queried
                // attribute, so the conjunction is empty.
                proof {
                    assert forall|i: usize| !self.matches_query(i as int, q) by {
                        if self.matches_query(i as int, q) {
                            assert(self.has_attr(i as int, q[0]));
                            let k = choose|k: int|
                                0 <= k < self.attrs_at(i as int).len() && self.attrs_at(
                                    i as int,
                                )[k] == q[0];
                            assert(self.fwd_has(self.attrs_at(i as int)[k]));
                            assert(false);
                        }
                    }
                }
                return r;
            },
        };
        let ghost ids = self.fwd()[j as int].ids@;
        let mut p: usize = 0;
        while p < self.attributes_store[j].ids.len()
            invariant
                j < self.fwd().len(),
                self.fwd()[j as int].attribute@ == q[0],
                p <= ids.len(),
                forall|k: int|
                    0 <= k < r@.len() ==> self.matches_query((#[trigger] r@[k]).0 as int, q)
                        && r@[k].1@ == self.value_at(r@[k].0 as int),
                forall|k: int|
                    0 <= k < r@.len() ==> exists|u: int|
                        0 <= u < p && ids[u] == (#[trigger] r@[k]).0,
                forall|u: int|
                    0 <= u < p && self.matches_query(#[trigger] ids[u] as int, q)
                        ==> exists|k: int| 0 <= k < r@.len() && (#[trigger] r@[k]).0 == ids[u],
                forall|k1: int, k2: int| 0 <= k1 < k2 < r@.len() ==> r@[k1].0 < r@[k2].0,
            decreases ids.len() - p,
        {
            let i = self.attributes_store[j].ids[p];
            proof {
                assert(self.fwd()[j as int].ids@.contains(ids[p as int]));
                assert(self.is_live(i as int));
            }
            let mut ok = true;
            let mut t: usize = 1;
            while t < attributes.len()
                invariant
                    1 <= t <= attributes@.len(),
                    self.is_live(i as int),
                    ok <==> forall|u: int|
                        1 <= u < t ==> self.attrs_at(i as int).contains(#[trigger] q[u]),
                decreases attributes@.len() - t,
            {
                let ghost ok_pre = ok;
                if !self.rev_contains(i, &attributes[t]) {
                    ok = false;
                }
                proof {
                    assert(q[t as int] == attributes@[t as int]@);
                    if ok {
                        assert forall|u: int|
                            1 <= u < t + 1 implies self.attrs_at(i as int).contains(
                            #[trigger] q[u],
                        ) by {
                            if u < t {
                                assert(ok_pre);
                            }
                        }
                    } else {
                        if ok_pre {
                            assert(!self.attrs_at(i as int).contains(q[t as int]));
                        } else {
                            let u = choose|u: int|
                                1 <= u < t && !self.attrs_at(i as int).contains(#[trigger] q[u]);
                            assert(!self.attrs_at(i as int).contains(q[u]));
                        }
                    }
                }
                t += 1;
            }
            let ghost r_old = r@;
            if ok {
                proof {
                    assert forall|u: int| 0 <= u < q.len() implies self.attrs_at(
                        i as int,
                    ).contains(#[trigger] q[u]) by {
                        if u == 0 {
                            assert(self.fwd()[j as int].ids@.contains(i));
                        }
                    }
                    assert(self.matches_query(i as int, q));
                    assert forall|k: int| 0 <= k < r@.len() implies (#[trigger] r@[k]).0 < i by {
                        let u = choose|u: int| 0 <= u < p && ids[u] == r@[k].0;
                        assert(ids[u] < ids[p as int]);
                    }
                }
                r.push((i, copy_bytes(&self.values_store[i])));
            }
            proof {
                if !ok {
                    let u = choose|u: int|
                        1 <= u < attributes@.len() && !self.attrs_at(i as int).contains(
                            #[trigger] q[u],
                        );
                    assert(!self.has_attr(i as int, q[u]));
                    assert(!self.matches_query(i as int, q));
                }
                assert forall|u: int|
                    0 <= u < p + 1 && self.matches_query(#[trigger] ids[u] as int, q)
                        implies exists|k: int|
                    0 <= k < r@.len() && (#[trigger] r@[k]).0 == ids[u] by {
                    if u < p {
                        let k = choose|k: int|
                            0 <= k < r_old.len() && (#[trigger] r_old[k]).0 == ids[u];
                        assert(r@[k].0 == ids[u]);
                    } else {
                        assert(ids[u] == i);
                        assert(r@[r@.len() - 1].0 == i);
                    }
                }
            }
            p += 1;
        }
        proof {
            // Completeness: every match carries the first queried attribute,
            // so its id sits in the probed postings list.
            assert forall|i: usize|
                q.len() > 0 && self.matches_query(i as int, q) implies exists|k: int|
                0 <= k < r@.len() && (#[trigger] r@[k]).0 == i by {
                assert(self.has_attr(i as int, q[0]));
                assert(self.fwd()[j as int].ids@.contains(i));
                let u = choose|u: int| 0 <= u < ids.len() && ids[u] == i;
            }
        }
        r
    }

    /// Deletes the value with the given id.
    ///
    /// Fails with `NotFound`, changing nothing, if the id was never assigned
    /// or was already deleted. On success the id is removed, by value, from
    /// every postings list that held it, and its reverse-index entry is
    /// dropped; the id is never reused. Other values are untouched.
    #[verifier::loop_isolation(false)]
    pub fn delete_by_value(&mut self, id: usize) -> (r: Result<(), CacheError>)
        requires
            old(self).wf(),
        ensures
            final(self).wf(),
            r is Ok <==> old(self).is_live(id as int),
            !old(self).is_live(id as int) ==> r == Result::<(), CacheError>::Err(
                CacheError::NotFound,
            ) && *final(self) == *old(self),
            old(self).is_live(id as int) ==> {
                &&& final(self).next_id() == old(self).next_id()
                &&& !final(self).is_live(id as int)
                &&& forall|i: int| i != id ==> final(self).is_live(i) == old(self).is_live(i)
                &&& forall|i: int|
                    i != id && old(self).is_live(i) ==> final(self).attrs_at(i) == old(
                        self,
                    ).attrs_at(i)
                &&& forall|i: int|
                    0 <= i < old(self).next_id() ==> final(self).value_at(i) == old(
                        self,
                    ).value_at(i)
            },
    {
        if id >= self.value_to_attributes_store.len() {
            return Err(CacheError::NotFound);
        }
        let attrs = match &self.value_to_attributes_store[id] {
            Some(v) => copy_strings(v),
            None => {
                return Err(CacheError::NotFound);
            },
        };
        let ghost a_all = views_of(attrs@);
        proof {
            assert(old(self).attrs_at(id as int) =~= a_all);
            assert(a_all.subrange(0, 0) =~= Seq::<Seq<char>>::empty());
        }
        let mut t: usize = 0;
        while t < attrs.len()
            invariant
                t <= attrs@.len(),
                self.values_store == old(self).values_store,
                self.value_to_attributes_store == old(self).value_to_attributes_store,
                self.fwd().len() == old(self).fwd().len(),
                forall|j: int|
                    0 <= j < self.fwd().len() ==> (#[trigger] self.fwd()[j]).attribute@ == old(
                        self,
                    ).fwd()[j].attribute@,
                forall|j: int|
                    0 <= j < self.fwd().len() ==> strictly_increasing(
                        (#[trigger] self.fwd()[j]).ids@,
                    ),
                forall|j: int, i: usize|
                    0 <= j < self.fwd().len() ==> ((#[trigger] self.fwd()[j].ids@.contains(i))
                        <==> old(self).fwd()[j].ids@.contains(i) && !(i == id
                        && a_all.subrange(0, t as int).contains(self.fwd()[j].attribute@))),
            decreases attrs@.len() - t,
        {
            let ghost fwd_pre = self.fwd();
            proof {
                assert(a_all.subrange(0, t as int + 1).drop_last() =~= a_all.subrange(0, t as int));
                assert(a_all.subrange(0, t as int + 1).last() == a_all[t as int]);
                assert(a_all[t as int] == attrs@[t as int]@);
            }
            match Self::find_entry(&self.attributes_store, &attrs[t]) {
                Some(j) => {
                    let ids2 = remove_id(&self.attributes_store[j].ids, id);
                    let name2 = self.attributes_store[j].attribute.clone();
                    self.attributes_store.set(j, Posting { attribute: name2, ids: ids2 });
                    proof {
                        assert forall|j2: int, i: usize|
                            0 <= j2 < self.fwd().len() implies ((#[trigger] self.fwd()[
                        j2].ids@.contains(i)) <==> old(self).fwd()[j2].ids@.contains(i) && !(i == id
                            && a_all.subrange(0, t as int + 1).contains(
                            self.fwd()[j2].attribute@,
                        ))) by {
                            if j2 == j {
                                assert(self.fwd()[j2].attribute@ == a_all[t as int]);
                                assert(a_all.subrange(0, t as int + 1).contains(
                                    self.fwd()[j2].attribute@,
                                ));
                                assert(self.fwd()[j2].ids@.contains(i) <==> fwd_pre[
                                j as int].ids@.contains(i) && i != id);
                            } else {
                                assert(self.fwd()[j2] == fwd_pre[j2]);
                                // Forward names are pairwise different, so the
                                // processed attribute is not this entry's name.
                                assert(old(self).fwd()[j2].attribute@ != old(
                                    self,
                                ).fwd()[j as int].attribute@);
                                assert(self.fwd()[j2].attribute@ != a_all[t as int]);
                            }
                        }
                    }
                }
                None => {
                    proof {
                        assert forall|j2: int, i: usize|
                            0 <= j2 < self.fwd().len() implies ((#[trigger] self.fwd()[
                        j2].ids@.contains(i)) <==> old(self).fwd()[j2].ids@.contains(i) && !(i == id
                            && a_all.subrange(0, t as int + 1).contains(
                            self.fwd()[j2].attribute@,
                        ))) by {
                            assert(self.fwd()[j2].attribute@ != a_all[t as int]);
                        }
                    }
                },
            }
            t += 1;
        }
        proof {
            assert(a_all.subrange(0, attrs@.len() as int) =~= a_all);
        }
        self.value_to_attributes_store.set(id, None);
        proof {
            let s1 = *self;
            assert forall|j: int, i: usize|
                0 <= j < s1.fwd().len() implies ((#[trigger] s1.fwd()[j].ids@.contains(i))
                <==> s1.is_live(i as int) && s1.attrs_at(i as int).contains(
                s1.fwd()[j].attribute@,
            )) by {
                assert(s1.fwd()[j].attribute@ == old(self).fwd()[j].attribute@);
                assert((old(self).fwd()[j].ids@.contains(i)) <==> old(self).is_live(i as int)
                    && old(self).attrs_at(i as int).contains(old(self).fwd()[j].attribute@));
                if i != id {
                    assert(s1.is_live(i as int) == old(self).is_live(i as int));
                    if old(self).is_live(i as int) {
                        assert(s1.attrs_at(i as int) == old(self).attrs_at(i as int));
                    }
                }
            }
            assert forall|i: int, k: int|
                s1.is_live(i) && 0 <= k < s1.attrs_at(i).len() implies s1.fwd_has(
                #[trigger] s1.attrs_at(i)[k],
            ) by {
                assert(i != id);
                assert(s1.attrs_at(i) == old(self).attrs_at(i));
                assert(old(self).fwd_has(old(self).attrs_at(i)[k]));
                let j3 = choose|j3: int|
                    0 <= j3 < old(self).fwd().len() && (#[trigger] old(self).fwd()[j3]).attribute@
                        == old(self).attrs_at(i)[k];
                assert(s1.fwd()[j3].attribute@ == old(self).fwd()[j3].attribute@);
            }
            assert forall|i: int| s1.is_live(i) implies distinct(#[trigger] s1.attrs_at(i)) by {
                assert(i != id);
                assert(s1.attrs_at(i) == old(self).attrs_at(i));
            }
            assert forall|j1: int, j2: int|
                0 <= j1 < j2 < s1.fwd().len() implies (#[trigger] s1.fwd()[j1]).attribute@ != (
            #[trigger] s1.fwd()[j2]).attribute@ by {
                assert(s1.fwd()[j1].attribute@ == old(self).fwd()[j1].attribute@);
                assert(s1.fwd()[j2].attribute@ == old(self).fwd()[j2].attribute@);
                assert(old(self).fwd()[j1].attribute@ != old(self).fwd()[j2].attribute@);
            }
        }
        Ok(())
    }

    /// Deletes every value matching the conjunctive query and returns the
    /// deleted ids, in ascending order.
    ///
    /// The query is answered as by `get_by_attributes`, then each matching
    /// value is deleted as by `delete_by_value`. An empty query deletes
    /// nothing. Were the two indexes ever to disagree, the compound delete
    /// would surface `InternalInconsistency`; a well-formed store never
    /// reaches that state, so the call always succeeds.
    #[verifier::loop_isolation(false)]
    pub fn delete_by_attributes(&mut self, attributes: Vec<String>) -> (r: Result<
        Vec<usize>,
        CacheError,
    >)
        requires
            old(self).wf(),
        ensures
            final(self).wf(),
            r is Ok,
            forall|k: int|
                0 <= k < r->Ok_0@.len() ==> old(self).matches_query(
                    #[trigger] r->Ok_0@[k] as int,
                    views_of(attributes@),
                ),
            forall|i: usize|
                attributes@.len() > 0 && old(self).matches_query(i as int, views_of(attributes@))
                    ==> r->Ok_0@.contains(i),
            attributes@.len() == 0 ==> r->Ok_0@.len() == 0,
            strictly_increasing(r->Ok_0@),
            forall|i: usize|
                final(self).is_live(i as int) <==> old(self).is_live(i as int)
                    && !r->Ok_0@.contains(i),
            forall|i: usize|
                final(self).is_live(i as int) ==> final(self).attrs_at(i as int) == old(
                    self,
                ).attrs_at(i as int),
            final(self).next_id() == old(self).next_id(),
            forall|i: int|
                0 <= i < old(self).next_id() ==> final(self).value_at(i) == old(self).value_at(i),
    {
        let ghost q = views_of(attributes@);
        let matched = self.get_by_attributes(attributes);
        let mut deleted: Vec<usize> = Vec::new();
        let mut t: usize = 0;
        while t < matched.len()
            invariant
                t <= matched@.len(),
                self.wf(),
                deleted@.len() == t,
                forall|k: int| 0 <= k < t ==> deleted@[k] == (#[trigger] matched@[k]).0,
                forall|i: usize|
                    self.is_live(i as int) <==> old(self).is_live(i as int) && !deleted@.contains(
                        i,
                    ),
                forall|i: usize|
                    self.is_live(i as int) ==> self.attrs_at(i as int) == old(self).attrs_at(
                        i as int,
                    ),
                self.next_id() == old(self).next_id(),
                forall|i: int|
                    0 <= i < old(self).next_id() ==> self.value_at(i) == old(self).value_at(i),
            decreases matched@.len() - t,
        {
            let i = matched[t].0;
            proof {
                assert(old(self).matches_query(i as int, q));
                assert(old(self).is_live(i as int));
                // The matched ids are strictly increasing, so this one was
                // not deleted by an earlier round and is still live.
                if deleted@.contains(i) {
                    let k = choose|k: int| 0 <= k < deleted@.len() && deleted@[k] == i;
                    assert(matched@[k].0 == matched@[t as int].0);
                    assert(false);
                }
                assert(self.is_live(i as int));
            }
            let ghost live_pre = *self;
            let ghost deleted_pre = deleted@;
            match self.delete_by_value(i) {
                Ok(_) => {
                    deleted.push(i);
                },
                Err(_) => {
                    // The id came from the query, so it is live and the
                    // targeted delete cannot fail on a well-formed store.
                    proof {
                        assert(false);
                    }
                    return Err(CacheError::InternalInconsistency);
                },
            }
            proof {
                assert forall|i2: usize|
                    self.is_live(i2 as int) <==> old(self).is_live(i2 as int)
                        && !deleted@.contains(i2) by {
                    if deleted_pre.contains(i2) {
                        let k = choose|k: int| 0 <= k < deleted_pre.len() && deleted_pre[k] == i2;
                        assert(deleted@[k] == i2);
                        assert(deleted@.contains(i2));
                        assert(!live_pre.is_live(i2 as int));
                        assert(!self.is_live(i2 as int));
                    } else if i2 == i {
                        assert(deleted@.last() == i2);
                        assert(deleted@.contains(i2));
                        assert(!self.is_live(i2 as int));
                    } else {
                        if deleted@.contains(i2) {
                            let k = choose|k: int| 0 <= k < deleted@.len() && deleted@[k] == i2;
                            assert(k < deleted_pre.len());
                            assert(deleted_pre[k] == i2);
                            assert(false);
                        }
                        assert(self.is_live(i2 as int) == live_pre.is_live(i2 as int));
                    }
                }
            }
            t += 1;
        }
        proof {
            assert forall|i: usize|
                q.len() > 0 && old(self).matches_query(i as int, q) implies deleted@.contains(
                i,
            ) by {
                let k = choose|k: int| 0 <= k < matched@.len() && (#[trigger] matched@[k]).0 == i;
                assert(deleted@[k] == i);
            }
            assert forall|k1: int, k2: int|
                0 <= k1 < k2 < deleted@.len() implies deleted@[k1] < deleted@[k2] by {
                assert(deleted@[k1] == matched@[k1].0);
                assert(deleted@[k2] == matched@[k2].0);
            }
            assert forall|k: int| 0 <= k < deleted@.len() implies old(self).matches_query(
                #[trigger] deleted@[k] as int,
                q,
            ) by {
                assert(deleted@[k] == matched@[k].0);
                assert(old(self).matches_query((matched@[k]).0 as int, q));
            }
        }
        Ok(deleted)
    }
}

/// Round trip: a store in which an insert has just recorded the attribute
/// list `attrs` under id `i` reads back, through the reverse index, exactly
/// the attributes that were supplied: the same members always, and the
/// same list whenever `attrs` held no repeats.
pub proof fn lemma_insert_round_trip(
    c: AttributesCache,
    i: int,
    attrs: Seq<Seq<char>>,
    read_back: Seq<Seq<char>>,
)
    requires
        c.attrs_at(i) == dedup(attrs),
        read_back == c.attrs_at(i),
    ensures
        forall|a: Seq<char>| read_back.contains(a) <==> attrs.contains(a),
        distinct(attrs) ==> read_back == attrs,
{
    lemma_dedup_contains(attrs);
    if distinct(attrs) {
        lemma_dedup_of_distinct(attrs);
    }
}

/// Conjunction correctness, read over membership: a value matches a query
/// exactly when it is live and its attribute set is a superset of the set
/// of queried attributes.
pub proof fn lemma_matches_is_superset(c: AttributesCache, i: int, q: Seq<Seq<char>>)
    ensures
        c.matches_query(i, q) <==> c.is_live(i) && (forall|a: Seq<char>|
            q.contains(a) ==> c.has_attr(i, a)),
{
    if c.is_live(i) {
        if forall|a: Seq<char>| q.contains(a) ==> c.has_attr(i, a) {
            assert forall|k: int| 0 <= k < q.len() implies c.has_attr(i, #[trigger] q[k]) by {
                assert(q.contains(q[k]));
            }
        }
        if c.matches_query(i, q) {
            assert forall|a: Seq<char>| q.contains(a) implies c.has_attr(i, a) by {
                let k = choose|k: int| 0 <= k < q.len() && q[k] == a;
                assert(c.has_attr(i, q[k]));
            }
        }
    }
}

/// Unknown attribute: a query naming an attribute that no live value
/// carries matches nothing, whatever other attributes it also names.
pub proof fn lemma_unknown_attribute(c: AttributesCache, q: Seq<Seq<char>>, a: Seq<char>)
    requires
        q.contains(a),
        forall|i: int| c.is_live(i) ==> !c.attrs_at(i).contains(a),
    ensures
        forall|i: int| !c.matches_query(i, q),
{
    assert forall|i: int| !c.matches_query(i, q) by {
        if c.matches_query(i, q) {
            let k = choose|k: int| 0 <= k < q.len() && q[k] == a;
            assert(c.has_attr(i, q[k]));
        }
    }
}

/// Deletion consistency: an id that is not live matches no query, so after
/// a successful delete the id appears in no conjunctive query result.
pub proof fn lemma_deleted_matches_nothing(c: AttributesCache, i: int, q: Seq<Seq<char>>)
    requires
        !c.is_live(i),
    ensures
        !c.matches_query(i, q),
{
}

/// Ordering determinism: two queries over the same set of attributes have
/// the same matches, and any two strictly increasing id lists enumerating
/// those matches are the same list. The result order of a conjunctive
/// query therefore does not depend on the order the attributes were
/// supplied in.
pub proof fn lemma_query_determinism(
    c: AttributesCache,
    q1: Seq<Seq<char>>,
    q2: Seq<Seq<char>>,
    ids1: Seq<usize>,
    ids2: Seq<usize>,
)
    requires
        forall|a: Seq<char>| q1.contains(a) <==> q2.contains(a),
        strictly_increasing(ids1),
        strictly_increasing(ids2),
        forall|i: usize| ids1.contains(i) <==> c.matches_query(i as int, q1),
        forall|i: usize| ids2.contains(i) <==> c.matches_query(i as int, q2),
    ensures
        forall|i: int| c.matches_query(i, q1) == c.matches_query(i, q2),
        ids1 == ids2,
{
    assert forall|i: int| c.matches_query(i, q1) == c.matches_query(i, q2) by {
        lemma_matches_is_superset(c, i, q1);
        lemma_matches_is_superset(c, i, q2);
        if c.matches_query(i, q1) {
            assert forall|a: Seq<char>| q2.contains(a) implies c.has_attr(i, a) by {
                assert(q1.contains(a));
            }
        }
        if c.matches_query(i, q2) {
            assert forall|a: Seq<char>| q1.contains(a) implies c.has_attr(i, a) by {
                assert(q2.contains(a));
            }
        }
    }
    assert forall|y: usize| ids1.contains(y) <==> ids2.contains(y) by {
        assert(ids1.contains(y) <==> c.matches_query(y as int, q1));
        assert(ids2.contains(y) <==> c.matches_query(y as int, q2));
        assert(c.matches_query(y as int, q1) == c.matches_query(y as int, q2));
    }
    crate::seqs::lemma_strictly_increasing_same_members(ids1, ids2);
}

} // verus!
