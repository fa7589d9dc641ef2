//! The reverse call graph: for each invoked method, the methods that invoke it.
//! It is built from the call edges one at a time and answers, for a callee, its
//! callers in the order of their first edge, each once.

use vstd::prelude::*;
use vstd::hash_map::StringHashMap;
use vstd::hash_set::StringHashSet;
use crate::dex::{refs_contain, refs_view, spec_signature, MethodRef, SpecMethodRef};
use crate::text::dedup;

verus! {

/// A call edge: (caller, callee).
pub type Edge = (SpecMethodRef, SpecMethodRef);

/// The callers of `m` along `es`, in edge order (repeats kept).
pub open spec fn callers_along(es: Seq<Edge>, m: SpecMethodRef) -> Seq<SpecMethodRef>
    decreases es.len(),
{
    if es.len() == 0 {
        Seq::empty()
    } else {
        let r = callers_along(es.drop_last(), m);
        if es.last().1 == m {
            r.push(es.last().0)
        } else {
            r
        }
    }
}

/// The callers of `m` along `es`, each once, in order of their first edge.
pub open spec fn callers_in(es: Seq<Edge>, m: SpecMethodRef) -> Seq<SpecMethodRef> {
    dedup(callers_along(es, m))
}

/// Callers of one callee.
struct Entry {
    callee: MethodRef,
    callers: Vec<MethodRef>,
    caller_sigs: StringHashSet,
}

impl Entry {
    /// `caller_sigs` holds exactly the signatures of the callers.
    spec fn sigs_match(&self) -> bool {
        forall|s: Seq<char>|
            #[trigger] self.caller_sigs@.contains(s) <==> exists|i: int|
                0 <= i < self.callers@.len() && spec_signature(#[trigger] self.callers@[i]@) == s
    }
}

/// The reverse call graph of the edges added so far.
pub struct ReverseIndex {
    entries: Vec<Entry>,
    by_sig: StringHashMap<Vec<usize>>,
    edges: Ghost<Seq<Edge>>,
}

impl ReverseIndex {
    /// The edges added so far, in order.
    pub closed spec fn edges(&self) -> Seq<Edge> {
        self.edges@
    }

    /// The internal invariant.
    pub closed spec fn wf(&self) -> bool {
        let es = self.edges@;
        let n = self.entries@.len();
        &&& forall|k: int|
            0 <= k < n ==> refs_view(#[trigger] self.entries@[k].callers@) == callers_in(
                es,
                self.entries@[k].callee@,
            )
        &&& forall|k: int| 0 <= k < n ==> (#[trigger] self.entries@[k]).callers@.len() > 0
        &&& forall|k1: int, k2: int|
            0 <= k1 < n && 0 <= k2 < n && k1 != k2 ==> (#[trigger] self.entries@[k1]).callee@
                != (#[trigger] self.entries@[k2]).callee@
        &&& forall|m: SpecMethodRef|
            #[trigger] callers_along(es, m).len() > 0 ==> exists|k: int|
                0 <= k < n && (#[trigger] self.entries@[k]).callee@ == m
        &&& forall|k: int| 0 <= k < n ==> (#[trigger] self.entries@[k]).sigs_match()
        &&& forall|k: int|
            0 <= k < n ==> self.by_sig@.contains_key(
                spec_signature((#[trigger] self.entries@[k]).callee@),
            ) && self.by_sig@[spec_signature(self.entries@[k].callee@)]@.contains(k as usize)
        &&& forall|key: Seq<char>, i: int|
            self.by_sig@.contains_key(key) && 0 <= i < self.by_sig@[key]@.len()
                ==> #[trigger] self.by_sig@[key]@[i] < n && spec_signature(
                self.entries@[self.by_sig@[key]@[i] as int].callee@,
            ) == key
    }

    /// No edge yet.
    pub fn new() -> (r: ReverseIndex)
        ensures
            r.wf(),
            r.edges() == Seq::<Edge>::empty(),
    {
        ReverseIndex { entries: Vec::new(), by_sig: StringHashMap::new(), edges: Ghost(Seq::empty()) }
    }

    /// The position of the entry for `m`, if there is one.
    fn find(&self, m: &MethodRef, sig: &String) -> (r: Option<usize>)
        requires
            self.wf(),
            sig@ == spec_signature(m@),
        ensures
            match r {
                Some(k) => k < self.entries@.len() && self.entries@[k as int].callee@ == m@,
                None => forall|k: int|
                    0 <= k < self.entries@.len() ==> (#[trigger] self.entries@[k]).callee@ != m@,
            },
    {
        let n = self.entries.len();
        match self.by_sig.get(sig.as_str()) {
            None => {
                assert forall|k: int| 0 <= k < self.entries@.len() implies (
                #[trigger] self.entries@[k]).callee@ != m@ by {
                    if self.entries@[k].callee@ == m@ {
                        assert(self.by_sig@.contains_key(spec_signature(self.entries@[k].callee@)));
                    }
                }
                None
            },
            Some(bucket) => {
                let mut i: usize = 0;
                while i < bucket.len()
                    invariant
                        self.wf(),
                        sig@ == spec_signature(m@),
                        self.by_sig@.contains_key(sig@),
                        *bucket == self.by_sig@[sig@],
                        i <= bucket@.len(),
                        forall|j: int|
                            0 <= j < i ==> self.entries@[#[trigger] bucket@[j] as int].callee@ != m@,
                    decreases bucket.len() - i,
                {
                    let k = bucket[i];
                    assert(k < self.entries@.len());
                    if self.entries[k].callee.same_as(m) {
                        return Some(k);
                    }
                    i = i + 1;
                }
                assert forall|k: int| 0 <= k < self.entries@.len() implies (
                #[trigger] self.entries@[k]).callee@ != m@ by {
                    if self.entries@[k].callee@ == m@ {
                        assert(self.by_sig@[sig@]@.contains(k as usize));
                        let j = choose|j: int|
                            0 <= j < bucket@.len() && bucket@[j] == k as usize;
                        assert(k < n);
                        assert(bucket@[j] as int == k);
                        assert(self.entries@[bucket@[j] as int].callee@ != m@);
                    }
                }
                None
            },
        }
    }

    /// Records the call edge `caller -> callee`.
    pub fn add_edge(&mut self, caller: &MethodRef, callee: &MethodRef)
        requires
            old(self).wf(),
        ensures
            final(self).wf(),
            final(self).edges() == old(self).edges().push((caller@, callee@)),
    {
        let ghost es0 = self.edges@;
        let ghost e: Edge = (caller@, callee@);
        let ghost es1 = es0.push(e);
        proof {
            assert forall|m: SpecMethodRef| #[trigger] callers_along(es1, m) == (if callee@ == m {
                callers_along(es0, m).push(caller@)
            } else {
                callers_along(es0, m)
            }) by {
                lemma_callers_along_push(es0, e, m);
            }
        }
        let sig = callee.signature();
        let csig = caller.signature();
        match self.find(callee, &sig) {
            Some(k) => {
                let ghost old_entries = self.entries@;
                let ghost cv = refs_view(self.entries@[k as int].callers@);
                let has_sig = self.entries[k].caller_sigs.contains(csig.as_str());
                let known = has_sig && refs_contain(&self.entries[k].callers, caller);
                proof {
                    if !has_sig && cv.contains(caller@) {
                        let i = choose|i: int| 0 <= i < cv.len() && cv[i] == caller@;
                        assert(spec_signature(self.entries@[k as int].callers@[i]@) == csig@);
                        assert(self.entries@[k as int].caller_sigs@.contains(csig@));
                    }
                    assert(known == cv.contains(caller@));
                }
                if !known {
                    self.entries[k].callers.push(caller.duplicate());
                    self.entries[k].caller_sigs.insert(csig);
                    proof {
                        assert(refs_view(self.entries@[k as int].callers@) =~= cv.push(caller@));
                        let ek = self.entries@[k as int];
                        assert forall|s: Seq<char>| #[trigger] ek.caller_sigs@.contains(s) <==> exists|i: int|
                            0 <= i < ek.callers@.len() && spec_signature(#[trigger] ek.callers@[i]@) == s by {
                            let n0 = old_entries[k as int].callers@.len();
                            if s == csig@ {
                                assert(spec_signature(ek.callers@[n0 as int]@) == s);
                            } else if ek.caller_sigs@.contains(s) {
                                let i = choose|i: int| 0 <= i < old_entries[k as int].callers@.len()
                                    && spec_signature(#[trigger] old_entries[k as int].callers@[i]@) == s;
                                assert(ek.callers@[i] == old_entries[k as int].callers@[i]);
                            } else if exists|i: int| 0 <= i < ek.callers@.len() && spec_signature(#[trigger] ek.callers@[i]@) == s {
                                let i = choose|i: int| 0 <= i < ek.callers@.len() && spec_signature(#[trigger] ek.callers@[i]@) == s;
                                if i < n0 {
                                    assert(ek.callers@[i] == old_entries[k as int].callers@[i]);
                                }
                            }
                        }
                    }
                }
                self.edges = Ghost(es1);
                proof {
                    assert forall|j: int| 0 <= j < self.entries@.len() && j != k implies
                        #[trigger] self.entries@[j] == old_entries[j] by {}
                    assert forall|m: SpecMethodRef| #[trigger] callers_along(es1, m).len() > 0 implies exists|j: int|
                        0 <= j < self.entries@.len() && (#[trigger] self.entries@[j]).callee@ == m by {
                        if m == callee@ {
                            assert(self.entries@[k as int].callee@ == m);
                        } else {
                            let j = choose|j: int| 0 <= j < old_entries.len() && (#[trigger] old_entries[j]).callee@ == m;
                            assert(self.entries@[j].callee@ == m);
                        }
                    }
                    let al = callers_along(es0, callee@);
                    assert(al.push(caller@).drop_last() =~= al);
                    assert(al.push(caller@).last() == caller@);
                    assert(callers_in(es1, callee@) == (if cv.contains(caller@) {
                        cv
                    } else {
                        cv.push(caller@)
                    }));
                }
            },
            None => {
                let ghost old_entries = self.entries@;
                let ghost old_map = self.by_sig@;
                proof {
                    if callers_along(es0, callee@).len() > 0 {
                        let j = choose|j: int| 0 <= j < old_entries.len() && (#[trigger] old_entries[j]).callee@ == callee@;
                        assert(false);
                    }
                    assert(callers_along(es1, callee@) =~= seq![caller@]);
                    assert(seq![caller@].drop_last() =~= Seq::<SpecMethodRef>::empty());
                    assert(dedup(Seq::<SpecMethodRef>::empty()) =~= Seq::<SpecMethodRef>::empty());
                    assert(Seq::<SpecMethodRef>::empty().push(caller@) =~= seq![caller@]);
                    assert(seq![caller@].last() == caller@);
                    assert(dedup(seq![caller@]) =~= seq![caller@]);
                }
                let mut callers: Vec<MethodRef> = Vec::new();
                callers.push(caller.duplicate());
                let mut caller_sigs = StringHashSet::new();
                caller_sigs.insert(csig);
                let idx = self.entries.len();
                let entry = Entry { callee: callee.duplicate(), callers, caller_sigs };
                proof {
                    assert(refs_view(entry.callers@) =~= seq![caller@]);
                    assert forall|s: Seq<char>| #[trigger] entry.caller_sigs@.contains(s) <==> exists|i: int|
                        0 <= i < entry.callers@.len() && spec_signature(#[trigger] entry.callers@[i]@) == s by {
                        if s == csig@ {
                            assert(spec_signature(entry.callers@[0]@) == s);
                        }
                    }
                }
                self.entries.push(entry);
                let mut bucket: Vec<usize> = match self.by_sig.get(sig.as_str()) {
                    Some(b) => copy_indices(b),
                    None => Vec::new(),
                };
                let ghost b0 = bucket@;
                bucket.push(idx);
                self.by_sig.insert(sig, bucket);
                self.edges = Ghost(es1);
                proof {
                    let n = self.entries@.len();
                    assert forall|j: int| 0 <= j < old_entries.len() implies
                        #[trigger] self.entries@[j] == old_entries[j] by {}
                    assert forall|m: SpecMethodRef| #[trigger] callers_along(es1, m).len() > 0 implies exists|j: int|
                        0 <= j < self.entries@.len() && (#[trigger] self.entries@[j]).callee@ == m by {
                        if m == callee@ {
                            assert(self.entries@[idx as int].callee@ == m);
                        } else {
                            let j = choose|j: int| 0 <= j < old_entries.len() && (#[trigger] old_entries[j]).callee@ == m;
                            assert(self.entries@[j].callee@ == m);
                        }
                    }
                    assert forall|j: int| 0 <= j < n implies self.by_sig@.contains_key(
                        spec_signature((#[trigger] self.entries@[j]).callee@),
                    ) && self.by_sig@[spec_signature(self.entries@[j].callee@)]@.contains(j as usize) by {
                        let key = spec_signature(self.entries@[j].callee@);
                        if j == idx {
                            assert(self.by_sig@[key]@[b0.len() as int] == idx);
                        } else if key == sig@ {
                            let t = choose|t: int| 0 <= t < old_map[key]@.len() && old_map[key]@[t] == j as usize;
                            assert(self.by_sig@[key]@[t] == j as usize);
                        }
                    }
                    assert forall|key: Seq<char>, i: int|
                        self.by_sig@.contains_key(key) && 0 <= i < self.by_sig@[key]@.len()
                        implies #[trigger] self.by_sig@[key]@[i] < n && spec_signature(
                        self.entries@[self.by_sig@[key]@[i] as int].callee@) == key by {
                        if key == sig@ && i < b0.len() {
                            assert(self.by_sig@[key]@[i] == old_map[key]@[i]);
                        }
                    }
                }
            },
        }
    }

    /// The callers of `m`, each once, in order of their first edge; `None` when
    /// no edge reaches `m`.
    pub fn callers(&self, m: &MethodRef) -> (r: Option<&Vec<MethodRef>>)
        requires
            self.wf(),
        ensures
            match r {
                Some(v) => refs_view(v@) == callers_in(self.edges(), m@) && v@.len() > 0,
                None => callers_along(self.edges(), m@).len() == 0,
            },
    {
        let sig = m.signature();
        match self.find(m, &sig) {
            Some(k) => Some(&self.entries[k].callers),
            None => {
                proof {
                    if callers_along(self.edges@, m@).len() > 0 {
                        let k = choose|k: int|
                            0 <= k < self.entries@.len() && (#[trigger] self.entries@[k]).callee@
                                == m@;
                        assert(false);
                    }
                }
                None
            },
        }
    }
}

/// A copy of a list of positions.
fn copy_indices(v: &Vec<usize>) -> (r: Vec<usize>)
    ensures
        r@ == v@,
{
    let mut r: Vec<usize> = Vec::new();
    let mut i: usize = 0;
    while i < v.len()
        invariant
            i <= v@.len(),
            r@ == v@.take(i as int),
        decreases v.len() - i,
    {
        r.push(v[i]);
        assert(v@.take(i + 1) =~= v@.take(i as int).push(v@[i as int]));
        i = i + 1;
    }
    assert(v@.take(v@.len() as int) =~= v@);
    r
}

/// Adding an edge adds its caller to its callee's callers, and nothing else.
pub proof fn lemma_callers_along_push(es: Seq<Edge>, e: Edge, m: SpecMethodRef)
    ensures
        callers_along(es.push(e), m) == (if e.1 == m {
            callers_along(es, m).push(e.0)
        } else {
            callers_along(es, m)
        }),
{
    assert(es.push(e).drop_last() =~= es);
}

} // verus!
