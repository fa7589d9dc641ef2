//! The analysis result: the deduped, sorted mappings, the AIDL methods with no
//! public path, and the per-method call chains, plus their CSV rows and debug
//! log text. It holds no graph or dex state, so rendering stays decoupled from
//! tracing.

use vstd::prelude::*;
use crate::dex::MethodRef;
use crate::graph::Index;
use crate::reverse::callers_along;
use crate::text::{append_str, chars_of, decimal, decimal_string, strings_view};
use crate::trace::{mappings_view, trace, Mapping, SpecMapping, Trace};

verus! {

/// An AIDL method with no public path, and why.
#[derive(Debug, Clone)]
pub struct Unmapped {
    pub aidl: String,
    pub reason: String,
}

/// What an [`Unmapped`] denotes.
pub struct SpecUnmapped {
    pub aidl: Seq<char>,
    pub reason: Seq<char>,
}

impl View for Unmapped {
    type V = SpecUnmapped;

    open spec fn view(&self) -> SpecUnmapped {
        SpecUnmapped { aidl: self.aidl@, reason: self.reason@ }
    }
}

/// The call chain of one AIDL method, for the debug log.
pub struct DebugEntry {
    pub fqn: String,
    pub mapped: bool,
    pub path: String,
}

/// What a [`DebugEntry`] denotes.
pub struct SpecDebugEntry {
    pub fqn: Seq<char>,
    pub mapped: bool,
    pub path: Seq<char>,
}

impl View for DebugEntry {
    type V = SpecDebugEntry;

    open spec fn view(&self) -> SpecDebugEntry {
        SpecDebugEntry { fqn: self.fqn@, mapped: self.mapped, path: self.path@ }
    }
}

/// The full analysis result, ready to serialize.
pub struct Report {
    pub mappings: Vec<Mapping>,
    pub unmapped: Vec<Unmapped>,
    /// per-AIDL-method call chain, for the debug log (sorted by `fqn`).
    pub debug: Vec<DebugEntry>,
}

/// The outcome of tracing one AIDL method, as the report gathers it.
pub struct AidlTrace {
    pub fqn: String,
    pub mapped: bool,
    pub has_callers: bool,
    pub path: String,
    pub mappings: Vec<Mapping>,
}

/// What an [`AidlTrace`] denotes.
pub struct SpecAidlTrace {
    pub fqn: Seq<char>,
    pub mapped: bool,
    pub has_callers: bool,
    pub path: Seq<char>,
    pub mappings: Seq<SpecMapping>,
}

impl View for AidlTrace {
    type V = SpecAidlTrace;

    open spec fn view(&self) -> SpecAidlTrace {
        SpecAidlTrace {
            fqn: self.fqn@,
            mapped: self.mapped,
            has_callers: self.has_callers,
            path: self.path@,
            mappings: mappings_view(self.mappings@),
        }
    }
}

// ---------------------------------------------------------------------------
// Orders and sorting
// ---------------------------------------------------------------------------

/// `a < b` for strings: `String`'s order, byte-wise on UTF-8, which is the
/// order of the code points.
pub open spec fn str_lt(a: Seq<char>, b: Seq<char>) -> bool
    decreases a.len(),
{
    if a.len() == 0 {
        b.len() > 0
    } else if b.len() == 0 {
        false
    } else if a[0] != b[0] {
        (a[0] as u32) < (b[0] as u32)
    } else {
        str_lt(a.drop_first(), b.drop_first())
    }
}

/// Mappings ordered by (aidl, public class, method, desc, hops, jar).
pub open spec fn mapping_lt(a: SpecMapping, b: SpecMapping) -> bool {
    if a.aidl != b.aidl {
        str_lt(a.aidl, b.aidl)
    } else if a.public_class != b.public_class {
        str_lt(a.public_class, b.public_class)
    } else if a.method != b.method {
        str_lt(a.method, b.method)
    } else if a.desc != b.desc {
        str_lt(a.desc, b.desc)
    } else if a.hops != b.hops {
        a.hops < b.hops
    } else {
        str_lt(a.jar, b.jar)
    }
}

/// `x` placed into `s` before the first element that it precedes, so that
/// equal elements keep their order.
pub open spec fn insert_sorted<A>(s: Seq<A>, x: A, lt: spec_fn(A, A) -> bool) -> Seq<A>
    decreases s.len(),
{
    if s.len() == 0 {
        seq![x]
    } else if lt(x, s[0]) {
        seq![x] + s
    } else {
        seq![s[0]] + insert_sorted(s.drop_first(), x, lt)
    }
}

/// The stable sort of `s` by `lt`.
pub open spec fn sort_by<A>(s: Seq<A>, lt: spec_fn(A, A) -> bool) -> Seq<A>
    decreases s.len(),
{
    if s.len() == 0 {
        Seq::empty()
    } else {
        insert_sorted(sort_by(s.drop_last(), lt), s.last(), lt)
    }
}

/// The order of mappings.
pub open spec fn mapping_order() -> spec_fn(SpecMapping, SpecMapping) -> bool {
    |a: SpecMapping, b: SpecMapping| mapping_lt(a, b)
}

/// The order of unmapped methods: by name.
pub open spec fn unmapped_order() -> spec_fn(SpecUnmapped, SpecUnmapped) -> bool {
    |a: SpecUnmapped, b: SpecUnmapped| str_lt(a.aidl, b.aidl)
}

/// The order of debug entries: by name.
pub open spec fn debug_order() -> spec_fn(SpecDebugEntry, SpecDebugEntry) -> bool {
    |a: SpecDebugEntry, b: SpecDebugEntry| str_lt(a.fqn, b.fqn)
}

/// Inserting where the first greater element stands.
proof fn lemma_insert_sorted_at<A>(s: Seq<A>, x: A, lt: spec_fn(A, A) -> bool, j: int)
    requires
        0 <= j <= s.len(),
        forall|t: int| 0 <= t < j ==> !lt(x, #[trigger] s[t]),
        j < s.len() ==> lt(x, s[j]),
    ensures
        insert_sorted(s, x, lt) == s.insert(j, x),
    decreases s.len(),
{
    if s.len() > 0 {
        if j == 0 {
            assert(seq![x] + s =~= s.insert(0, x));
        } else {
            assert forall|t: int| 0 <= t < j - 1 implies !lt(x, #[trigger] s.drop_first()[t]) by {
                assert(s.drop_first()[t] == s[t + 1]);
            }
            lemma_insert_sorted_at(s.drop_first(), x, lt, j - 1);
            assert(seq![s[0]] + s.drop_first().insert(j - 1, x) =~= s.insert(j, x));
        }
    } else {
        assert(seq![x] =~= s.insert(0, x));
    }
}

/// Inserting keeps the elements and adds `x`.
pub proof fn lemma_insert_sorted_contains<A>(s: Seq<A>, x: A, lt: spec_fn(A, A) -> bool, y: A)
    ensures
        insert_sorted(s, x, lt).contains(y) <==> s.contains(y) || y == x,
        insert_sorted(s, x, lt).to_multiset() == s.to_multiset().insert(x),
    decreases s.len(),
{
    broadcast use vstd::seq_lib::group_to_multiset_ensures;
    if s.len() == 0 {
        assert(insert_sorted(s, x, lt) =~= seq![x]);
        assert(seq![x][0] == x);
        assert(seq![x].contains(x));
        assert forall|z: A| seq![x].contains(z) implies z == x by {
            let k = choose|k: int| 0 <= k < seq![x].len() && seq![x][k] == z;
        }
        assert(seq![x] =~= Seq::<A>::empty().push(x));
    } else if lt(x, s[0]) {
        let r = seq![x] + s;
        assert(r[0] == x);
        assert forall|z: A| r.contains(z) <==> s.contains(z) || z == x by {
            if r.contains(z) && z != x {
                let k = choose|k: int| 0 <= k < r.len() && r[k] == z;
                assert(s[k - 1] == z);
            }
            if s.contains(z) {
                let k = choose|k: int| 0 <= k < s.len() && s[k] == z;
                assert(r[k + 1] == z);
            }
        }
        vstd::seq_lib::lemma_multiset_commutative(seq![x], s);
        assert(seq![x] =~= Seq::<A>::empty().push(x));
    } else {
        let t = insert_sorted(s.drop_first(), x, lt);
        lemma_insert_sorted_contains(s.drop_first(), x, lt, y);
        let r = seq![s[0]] + t;
        assert forall|z: A| r.contains(z) <==> s.contains(z) || z == x by {
            lemma_insert_sorted_contains(s.drop_first(), x, lt, z);
            if r.contains(z) {
                let k = choose|k: int| 0 <= k < r.len() && r[k] == z;
                if k == 0 {
                    assert(s[0] == z);
                } else {
                    assert(t[k - 1] == z);
                    if s.drop_first().contains(z) {
                        let m = choose|m: int| 0 <= m < s.drop_first().len() && s.drop_first()[m] == z;
                        assert(s[m + 1] == z);
                    }
                }
            }
            if s.contains(z) {
                let k = choose|k: int| 0 <= k < s.len() && s[k] == z;
                if k == 0 {
                    assert(r[0] == z);
                } else {
                    assert(s.drop_first()[k - 1] == z);
                    assert(t.contains(z));
                    let m = choose|m: int| 0 <= m < t.len() && t[m] == z;
                    assert(r[m + 1] == z);
                }
            }
            if z == x {
                assert(t.contains(z));
                let m = choose|m: int| 0 <= m < t.len() && t[m] == z;
                assert(r[m + 1] == z);
            }
        }
        vstd::seq_lib::lemma_multiset_commutative(seq![s[0]], t);
        vstd::seq_lib::lemma_multiset_commutative(seq![s[0]], s.drop_first());
        assert(seq![s[0]] + s.drop_first() =~= s);
        assert(seq![s[0]] =~= Seq::<A>::empty().push(s[0]));
    }
}

/// Sorting keeps exactly the elements.
pub proof fn lemma_sort_by_contains<A>(s: Seq<A>, lt: spec_fn(A, A) -> bool, y: A)
    ensures
        sort_by(s, lt).contains(y) <==> s.contains(y),
        sort_by(s, lt).to_multiset() == s.to_multiset(),
    decreases s.len(),
{
    broadcast use vstd::seq_lib::group_to_multiset_ensures;
    if s.len() > 0 {
        lemma_sort_by_contains(s.drop_last(), lt, y);
        lemma_insert_sorted_contains(sort_by(s.drop_last(), lt), s.last(), lt, y);
        if s.drop_last().contains(y) {
            let k = choose|k: int| 0 <= k < s.drop_last().len() && s.drop_last()[k] == y;
            assert(s[k] == y);
        }
        if s.contains(y) {
            let k = choose|k: int| 0 <= k < s.len() && s[k] == y;
            if k < s.len() - 1 {
                assert(s.drop_last()[k] == y);
            }
        }
        assert(s =~= s.drop_last().push(s.last()));
    }
}

// ---------------------------------------------------------------------------
// The report of a set of traces
// ---------------------------------------------------------------------------

/// The views of unmapped methods.
pub open spec fn unmapped_view(s: Seq<Unmapped>) -> Seq<SpecUnmapped> {
    s.map_values(|u: Unmapped| u@)
}

/// The views of debug entries.
pub open spec fn debug_view(s: Seq<DebugEntry>) -> Seq<SpecDebugEntry> {
    s.map_values(|d: DebugEntry| d@)
}

/// The views of traces.
pub open spec fn traces_view(s: Seq<AidlTrace>) -> Seq<SpecAidlTrace> {
    s.map_values(|t: AidlTrace| t@)
}

/// Every mapping of every trace, in order.
pub open spec fn all_mappings(ts: Seq<SpecAidlTrace>) -> Seq<SpecMapping>
    decreases ts.len(),
{
    if ts.len() == 0 {
        Seq::empty()
    } else {
        all_mappings(ts.drop_last()) + ts.last().mappings
    }
}

/// Why an AIDL method has no mapping: it has callers but no public path, or
/// no callers at all.
pub open spec fn unmapped_reason(has_callers: bool) -> Seq<char> {
    if has_callers {
        "NO_PUBLIC_PATH"@
    } else {
        "NO_CALLERS_FOUND"@
    }
}

/// The unmapped AIDL methods, in trace order.
pub open spec fn unmapped_of(ts: Seq<SpecAidlTrace>) -> Seq<SpecUnmapped>
    decreases ts.len(),
{
    if ts.len() == 0 {
        Seq::empty()
    } else if ts.last().mapped {
        unmapped_of(ts.drop_last())
    } else {
        unmapped_of(ts.drop_last()).push(
            SpecUnmapped { aidl: ts.last().fqn, reason: unmapped_reason(ts.last().has_callers) },
        )
    }
}

/// The debug entry of a trace.
pub open spec fn debug_of(t: SpecAidlTrace) -> SpecDebugEntry {
    SpecDebugEntry { fqn: t.fqn, mapped: t.mapped, path: t.path }
}

/// `lt` is a strict order: irreflexive and transitive.
pub open spec fn is_strict_order<A>(lt: spec_fn(A, A) -> bool) -> bool {
    &&& forall|a: A| !#[trigger] lt(a, a)
    &&& forall|a: A, b: A, c: A| #[trigger] lt(a, b) && #[trigger] lt(b, c) ==> lt(a, c)
}

/// No element of `s` precedes an earlier one.
pub open spec fn sorted_by<A>(s: Seq<A>, lt: spec_fn(A, A) -> bool) -> bool {
    forall|i: int, j: int| 0 <= i < j < s.len() ==> !lt(#[trigger] s[j], #[trigger] s[i])
}

/// `str_lt` is irreflexive.
proof fn lemma_str_lt_irreflexive(a: Seq<char>)
    ensures
        !str_lt(a, a),
    decreases a.len(),
{
    if a.len() > 0 {
        lemma_str_lt_irreflexive(a.drop_first());
    }
}

/// `str_lt` is transitive.
proof fn lemma_str_lt_transitive(a: Seq<char>, b: Seq<char>, c: Seq<char>)
    requires
        str_lt(a, b),
        str_lt(b, c),
    ensures
        str_lt(a, c),
    decreases a.len(),
{
    if a.len() > 0 && a[0] == b[0] && b[0] == c[0] {
        lemma_str_lt_transitive(a.drop_first(), b.drop_first(), c.drop_first());
    }
}

/// Of two different strings, one is less than the other.
proof fn lemma_str_lt_total(a: Seq<char>, b: Seq<char>)
    requires
        a != b,
    ensures
        str_lt(a, b) || str_lt(b, a),
    decreases a.len(),
{
    if a.len() > 0 && b.len() > 0 {
        if a[0] == b[0] {
            if a.drop_first() == b.drop_first() {
                assert(a =~= seq![a[0]] + a.drop_first());
                assert(b =~= seq![b[0]] + b.drop_first());
            }
            lemma_str_lt_total(a.drop_first(), b.drop_first());
        } else {
            let x = a[0];
            let y = b[0];
            vstd::utf8::char_u32_cast(x, x as u32);
            vstd::utf8::char_u32_cast(y, y as u32);
        }
    } else if a.len() == 0 && b.len() == 0 {
        assert(a =~= b);
    }
}

/// The order of strings is a strict total order.
pub proof fn lemma_str_order()
    ensures
        forall|a: Seq<char>| !#[trigger] str_lt(a, a),
        forall|a: Seq<char>, b: Seq<char>, c: Seq<char>|
            #[trigger] str_lt(a, b) && #[trigger] str_lt(b, c) ==> str_lt(a, c),
        forall|a: Seq<char>, b: Seq<char>| a != b ==> #[trigger] str_lt(a, b) || #[trigger] str_lt(b, a),
{
    assert forall|a: Seq<char>| !#[trigger] str_lt(a, a) by {
        lemma_str_lt_irreflexive(a);
    }
    assert forall|a: Seq<char>, b: Seq<char>, c: Seq<char>|
        #[trigger] str_lt(a, b) && #[trigger] str_lt(b, c) implies str_lt(a, c) by {
        lemma_str_lt_transitive(a, b, c);
    }
    assert forall|a: Seq<char>, b: Seq<char>| a != b implies #[trigger] str_lt(a, b) || #[trigger] str_lt(b, a) by {
        lemma_str_lt_total(a, b);
    }
}

/// The order of mappings is a strict total order.
pub proof fn lemma_mapping_order()
    ensures
        is_strict_order(mapping_order()),
        forall|a: SpecMapping, b: SpecMapping| a != b ==> #[trigger] mapping_lt(a, b) || #[trigger] mapping_lt(b, a),
{
    lemma_str_order();
    assert forall|a: SpecMapping, b: SpecMapping, c: SpecMapping|
        #[trigger] mapping_order()(a, b) && #[trigger] mapping_order()(b, c) implies mapping_order()(a, c) by {
        assert(mapping_lt(a, b) && mapping_lt(b, c));
    }
    assert forall|a: SpecMapping| !#[trigger] mapping_order()(a, a) by {
        assert(!mapping_lt(a, a));
    }
}

/// The order of unmapped methods and that of debug entries, by name, are
/// strict orders.
proof fn lemma_name_orders()
    ensures
        is_strict_order(unmapped_order()),
        is_strict_order(debug_order()),
{
    lemma_str_order();
    assert forall|a: SpecUnmapped, b: SpecUnmapped, c: SpecUnmapped|
        #[trigger] unmapped_order()(a, b) && #[trigger] unmapped_order()(b, c) implies unmapped_order()(a, c) by {
        assert(str_lt(a.aidl, b.aidl) && str_lt(b.aidl, c.aidl));
    }
    assert forall|a: SpecUnmapped| !#[trigger] unmapped_order()(a, a) by {
        assert(!str_lt(a.aidl, a.aidl));
    }
    assert forall|a: SpecDebugEntry, b: SpecDebugEntry, c: SpecDebugEntry|
        #[trigger] debug_order()(a, b) && #[trigger] debug_order()(b, c) implies debug_order()(a, c) by {
        assert(str_lt(a.fqn, b.fqn) && str_lt(b.fqn, c.fqn));
    }
    assert forall|a: SpecDebugEntry| !#[trigger] debug_order()(a, a) by {
        assert(!str_lt(a.fqn, a.fqn));
    }
}

/// Inserting into a sorted sequence keeps it sorted.
proof fn lemma_insert_sorted_sorted<A>(s: Seq<A>, x: A, lt: spec_fn(A, A) -> bool)
    requires
        is_strict_order(lt),
        sorted_by(s, lt),
    ensures
        sorted_by(insert_sorted(s, x, lt), lt),
    decreases s.len(),
{
    if s.len() == 0 {
    } else if lt(x, s[0]) {
        let r = seq![x] + s;
        assert forall|i: int, j: int| 0 <= i < j < r.len() implies !lt(#[trigger] r[j], #[trigger] r[i]) by {
            if i == 0 {
                assert(r[j] == s[j - 1]);
                if lt(s[j - 1], x) {
                    if j - 1 > 0 {
                        assert(!lt(s[j - 1], s[0]));
                    }
                }
            } else {
                assert(r[i] == s[i - 1] && r[j] == s[j - 1]);
            }
        }
    } else {
        let rest = s.drop_first();
        assert(sorted_by(rest, lt)) by {
            assert forall|i: int, j: int| 0 <= i < j < rest.len() implies !lt(#[trigger] rest[j], #[trigger] rest[i]) by {
                assert(rest[i] == s[i + 1] && rest[j] == s[j + 1]);
            }
        }
        lemma_insert_sorted_sorted(rest, x, lt);
        let t = insert_sorted(rest, x, lt);
        let r = seq![s[0]] + t;
        assert forall|i: int, j: int| 0 <= i < j < r.len() implies !lt(#[trigger] r[j], #[trigger] r[i]) by {
            if i == 0 {
                let y = t[j - 1];
                assert(r[j] == y);
                lemma_insert_sorted_contains(rest, x, lt, y);
                assert(t.contains(y));
                if y != x {
                    let k = choose|k: int| 0 <= k < rest.len() && rest[k] == y;
                    assert(s[k + 1] == y);
                }
            } else {
                assert(r[i] == t[i - 1] && r[j] == t[j - 1]);
            }
        }
    }
}

/// Sorting yields a sorted sequence.
pub proof fn lemma_sort_by_sorted<A>(s: Seq<A>, lt: spec_fn(A, A) -> bool)
    requires
        is_strict_order(lt),
    ensures
        sorted_by(sort_by(s, lt), lt),
    decreases s.len(),
{
    if s.len() > 0 {
        lemma_sort_by_sorted(s.drop_last(), lt);
        lemma_insert_sorted_sorted(sort_by(s.drop_last(), lt), s.last(), lt);
    }
}

/// A mapping is among those of the traces exactly when some trace has it.
proof fn lemma_all_mappings_contains(ts: Seq<SpecAidlTrace>, m: SpecMapping)
    ensures
        all_mappings(ts).contains(m) <==> exists|k: int| 0 <= k < ts.len() && (#[trigger] ts[k]).mappings.contains(m),
    decreases ts.len(),
{
    if ts.len() > 0 {
        let p = all_mappings(ts.drop_last());
        let q = ts.last().mappings;
        lemma_all_mappings_contains(ts.drop_last(), m);
        if (p + q).contains(m) {
            let i = choose|i: int| 0 <= i < (p + q).len() && (p + q)[i] == m;
            if i < p.len() {
                assert(p[i] == m);
                let k = choose|k: int| 0 <= k < ts.drop_last().len() && (#[trigger] ts.drop_last()[k]).mappings.contains(m);
                assert(ts[k] == ts.drop_last()[k]);
            } else {
                assert(q[i - p.len()] == m);
                assert(ts[ts.len() - 1] == ts.last());
            }
        }
        if exists|k: int| 0 <= k < ts.len() && (#[trigger] ts[k]).mappings.contains(m) {
            let k = choose|k: int| 0 <= k < ts.len() && (#[trigger] ts[k]).mappings.contains(m);
            if k < ts.len() - 1 {
                assert(ts.drop_last()[k] == ts[k]);
                let i = choose|i: int| 0 <= i < p.len() && p[i] == m;
                assert((p + q)[i] == m);
            } else {
                let i = choose|i: int| 0 <= i < q.len() && q[i] == m;
                assert((p + q)[p.len() + i] == m);
            }
        }
    }
}

/// An entry is among the unmapped methods exactly when some trace is not
/// mapped and it names that trace's method with its reason.
proof fn lemma_unmapped_of_contains(ts: Seq<SpecAidlTrace>, u: SpecUnmapped)
    ensures
        unmapped_of(ts).contains(u) <==> exists|k: int|
            0 <= k < ts.len() && !(#[trigger] ts[k]).mapped && u == (SpecUnmapped {
                aidl: ts[k].fqn,
                reason: unmapped_reason(ts[k].has_callers),
            }),
    decreases ts.len(),
{
    if ts.len() > 0 {
        let p = unmapped_of(ts.drop_last());
        let t = ts.last();
        let x = SpecUnmapped { aidl: t.fqn, reason: unmapped_reason(t.has_callers) };
        lemma_unmapped_of_contains(ts.drop_last(), u);
        assert(ts[ts.len() - 1] == t);
        assert forall|k: int| 0 <= k < ts.len() - 1 implies #[trigger] ts.drop_last()[k] == ts[k] by {}
        if !t.mapped {
            let r = p.push(x);
            assert(r[p.len() as int] == x);
            if r.contains(u) {
                let i = choose|i: int| 0 <= i < r.len() && r[i] == u;
                if i < p.len() {
                    assert(p[i] == u);
                }
            }
            if p.contains(u) {
                let i = choose|i: int| 0 <= i < p.len() && p[i] == u;
                assert(r[i] == u);
            }
        }
        if exists|k: int|
            0 <= k < ts.len() && !(#[trigger] ts[k]).mapped && u == (SpecUnmapped {
                aidl: ts[k].fqn,
                reason: unmapped_reason(ts[k].has_callers),
            }) {
            let k = choose|k: int|
                0 <= k < ts.len() && !(#[trigger] ts[k]).mapped && u == (SpecUnmapped {
                    aidl: ts[k].fqn,
                    reason: unmapped_reason(ts[k].has_callers),
                });
            if k < ts.len() - 1 {
                assert(ts.drop_last()[k] == ts[k]);
            }
        }
    }
}

/// The report's mappings are every mapping of every trace, each once, in
/// strictly increasing (aidl, public class, method, desc, hops, jar) order;
/// its unmapped methods are exactly the traces with no mapping, each with
/// `NO_PUBLIC_PATH` when it has callers and `NO_CALLERS_FOUND` otherwise, in
/// order of name; its debug entries, one per trace, are in order of name.
pub proof fn lemma_report_order(ts: Seq<SpecAidlTrace>)
    ensures
        ({
            let ms = sort_by(crate::text::dedup(all_mappings(ts)), mapping_order());
            &&& forall|i: int, j: int| 0 <= i < j < ms.len() ==> mapping_lt(#[trigger] ms[i], #[trigger] ms[j])
            &&& forall|m: SpecMapping| #[trigger] ms.contains(m) <==> exists|k: int|
                0 <= k < ts.len() && (#[trigger] ts[k]).mappings.contains(m)
        }),
        ({
            let us = sort_by(unmapped_of(ts), unmapped_order());
            &&& sorted_by(us, unmapped_order())
            &&& forall|u: SpecUnmapped| #[trigger] us.contains(u) <==> exists|k: int|
                0 <= k < ts.len() && !(#[trigger] ts[k]).mapped && u == (SpecUnmapped {
                    aidl: ts[k].fqn,
                    reason: unmapped_reason(ts[k].has_callers),
                })
        }),
        sorted_by(sort_by(ts.map_values(|t: SpecAidlTrace| debug_of(t)), debug_order()), debug_order()),
        sort_by(ts.map_values(|t: SpecAidlTrace| debug_of(t)), debug_order()).len() == ts.len(),
{
    broadcast use vstd::seq_lib::group_to_multiset_ensures;
    let d = crate::text::dedup(all_mappings(ts));
    let ms = sort_by(d, mapping_order());
    lemma_mapping_order();
    lemma_name_orders();
    lemma_sort_by_sorted(d, mapping_order());
    crate::text::lemma_dedup(all_mappings(ts));
    assert forall|m: SpecMapping| #[trigger] ms.contains(m) <==> exists|k: int|
        0 <= k < ts.len() && (#[trigger] ts[k]).mappings.contains(m) by {
        lemma_sort_by_contains(d, mapping_order(), m);
        lemma_all_mappings_contains(ts, m);
    }
    // Sorting keeps the count of each mapping, so each is still there once.
    assert(ms.to_multiset() == d.to_multiset()) by {
        lemma_sort_by_contains(d, mapping_order(), SpecMapping {
            aidl: Seq::empty(),
            public_class: Seq::empty(),
            method: Seq::empty(),
            desc: Seq::empty(),
            hops: 0,
            jar: Seq::empty(),
        });
    }
    assert forall|i: int, j: int| 0 <= i < j < ms.len() implies mapping_lt(#[trigger] ms[i], #[trigger] ms[j]) by {
        if ms[i] == ms[j] {
            d.lemma_multiset_has_no_duplicates();
            assert(ms.to_multiset().count(ms[i]) >= 2) by {
                lemma_count_two(ms, i, j);
            }
        }
        assert(!mapping_order()(ms[j], ms[i]));
    }
    let us = sort_by(unmapped_of(ts), unmapped_order());
    lemma_sort_by_sorted(unmapped_of(ts), unmapped_order());
    assert forall|u: SpecUnmapped| #[trigger] us.contains(u) <==> exists|k: int|
        0 <= k < ts.len() && !(#[trigger] ts[k]).mapped && u == (SpecUnmapped {
            aidl: ts[k].fqn,
            reason: unmapped_reason(ts[k].has_callers),
        }) by {
        lemma_sort_by_contains(unmapped_of(ts), unmapped_order(), u);
        lemma_unmapped_of_contains(ts, u);
    }
    let dv = ts.map_values(|t: SpecAidlTrace| debug_of(t));
    lemma_sort_by_sorted(dv, debug_order());
    lemma_sort_by_len(dv, debug_order());
}

/// The report's debug entries: one per trace, in order of name.
pub open spec fn debug_entries(ts: Seq<SpecAidlTrace>) -> Seq<SpecDebugEntry> {
    sort_by(ts.map_values(|t: SpecAidlTrace| debug_of(t)), debug_order())
}

/// The report keeps every trace's call chain: its debug entries are, up to
/// order, exactly one `(name, mapped, path)` per trace, each the trace's own.
pub proof fn lemma_report_debug_entries(ts: Seq<SpecAidlTrace>)
    ensures
        debug_entries(ts).to_multiset() == ts.map_values(
            |t: SpecAidlTrace| SpecDebugEntry { fqn: t.fqn, mapped: t.mapped, path: t.path },
        ).to_multiset(),
        forall|e: SpecDebugEntry|
            #[trigger] debug_entries(ts).contains(e) <==> exists|k: int|
                0 <= k < ts.len() && e == (SpecDebugEntry {
                    fqn: (#[trigger] ts[k]).fqn,
                    mapped: ts[k].mapped,
                    path: ts[k].path,
                }),
{
    let dv = ts.map_values(|t: SpecAidlTrace| debug_of(t));
    let ev = ts.map_values(|t: SpecAidlTrace| SpecDebugEntry { fqn: t.fqn, mapped: t.mapped, path: t.path });
    assert(dv =~= ev);
    lemma_sort_by_contains(dv, debug_order(), SpecDebugEntry { fqn: Seq::empty(), mapped: false, path: Seq::empty() });
    assert forall|e: SpecDebugEntry|
        #[trigger] debug_entries(ts).contains(e) <==> exists|k: int|
            0 <= k < ts.len() && e == (SpecDebugEntry {
                fqn: (#[trigger] ts[k]).fqn,
                mapped: ts[k].mapped,
                path: ts[k].path,
            }) by {
        lemma_sort_by_contains(dv, debug_order(), e);
        if dv.contains(e) {
            let k = choose|k: int| 0 <= k < dv.len() && dv[k] == e;
            assert(ev[k] == e);
        }
        if exists|k: int|
            0 <= k < ts.len() && e == (SpecDebugEntry {
                fqn: (#[trigger] ts[k]).fqn,
                mapped: ts[k].mapped,
                path: ts[k].path,
            }) {
            let k = choose|k: int|
                0 <= k < ts.len() && e == (SpecDebugEntry {
                    fqn: (#[trigger] ts[k]).fqn,
                    mapped: ts[k].mapped,
                    path: ts[k].path,
                });
            assert(dv[k] == e);
        }
    }
}

/// An element at two positions is counted at least twice.
proof fn lemma_count_two<A>(s: Seq<A>, i: int, j: int)
    requires
        0 <= i < j < s.len(),
        s[i] == s[j],
    ensures
        s.to_multiset().count(s[i]) >= 2,
{
    broadcast use vstd::seq_lib::group_to_multiset_ensures;
    let x = s[i];
    let a = s.take(j);
    let b = s.skip(j);
    assert(s =~= a + b);
    vstd::seq_lib::lemma_multiset_commutative(a, b);
    assert(a.take(i) + a.skip(i) =~= a);
    vstd::seq_lib::lemma_multiset_commutative(a.take(i), a.skip(i));
    assert(a.skip(i)[0] == x);
    assert(a.skip(i) =~= seq![x] + a.skip(i).skip(1));
    vstd::seq_lib::lemma_multiset_commutative(seq![x], a.skip(i).skip(1));
    assert(b =~= seq![x] + b.skip(1));
    vstd::seq_lib::lemma_multiset_commutative(seq![x], b.skip(1));
    assert(seq![x] =~= Seq::<A>::empty().push(x));
}

/// Sorting keeps the length.
proof fn lemma_sort_by_len<A>(s: Seq<A>, lt: spec_fn(A, A) -> bool)
    ensures
        sort_by(s, lt).len() == s.len(),
    decreases s.len(),
{
    if s.len() > 0 {
        lemma_sort_by_len(s.drop_last(), lt);
        lemma_insert_sorted_len(sort_by(s.drop_last(), lt), s.last(), lt);
    }
}

/// Inserting adds one element.
proof fn lemma_insert_sorted_len<A>(s: Seq<A>, x: A, lt: spec_fn(A, A) -> bool)
    ensures
        insert_sorted(s, x, lt).len() == s.len() + 1,
    decreases s.len(),
{
    if s.len() > 0 && !lt(x, s[0]) {
        lemma_insert_sorted_len(s.drop_first(), x, lt);
    }
}

/// `a < b` for strings.
pub fn string_lt(a: &String, b: &String) -> (r: bool)
    ensures
        r == str_lt(a@, b@),
{
    let x = chars_of(a.as_str());
    let y = chars_of(b.as_str());
    let mut i: usize = 0;
    assert(x@.skip(0) =~= x@);
    assert(y@.skip(0) =~= y@);
    while i < x.len() && i < y.len() && x[i] == y[i]
        invariant
            i <= x@.len(),
            i <= y@.len(),
            str_lt(a@, b@) == str_lt(x@.skip(i as int), y@.skip(i as int)),
            x@ == a@,
            y@ == b@,
        decreases x.len() - i,
    {
        assert(x@.skip(i as int).drop_first() =~= x@.skip(i + 1));
        assert(y@.skip(i as int).drop_first() =~= y@.skip(i + 1));
        i = i + 1;
    }
    if i == x.len() {
        i < y.len()
    } else if i == y.len() {
        false
    } else {
        (x[i] as u32) < (y[i] as u32)
    }
}

/// Mappings ordered by (aidl, public class, method, desc, hops, jar).
pub fn mapping_less(a: &Mapping, b: &Mapping) -> (r: bool)
    ensures
        r == mapping_lt(a@, b@),
{
    if a.aidl != b.aidl {
        string_lt(&a.aidl, &b.aidl)
    } else if a.public_class != b.public_class {
        string_lt(&a.public_class, &b.public_class)
    } else if a.method != b.method {
        string_lt(&a.method, &b.method)
    } else if a.desc != b.desc {
        string_lt(&a.desc, &b.desc)
    } else if a.hops != b.hops {
        a.hops < b.hops
    } else {
        string_lt(&a.jar, &b.jar)
    }
}

impl Mapping {
    /// A copy of this mapping.
    pub fn duplicate(&self) -> (r: Mapping)
        ensures
            r@ == self@,
    {
        Mapping {
            aidl: self.aidl.clone(),
            public_class: self.public_class.clone(),
            method: self.method.clone(),
            desc: self.desc.clone(),
            hops: self.hops,
            jar: self.jar.clone(),
        }
    }

    /// Whether the two mappings are the same line of the report.
    pub fn same_as(&self, other: &Mapping) -> (b: bool)
        ensures
            b == (self@ == other@),
    {
        self.aidl == other.aidl && self.public_class == other.public_class && self.method
            == other.method && self.desc == other.desc && self.hops == other.hops && self.jar
            == other.jar
    }
}

/// Places `x` into the sorted `out`.
fn insert_mapping(out: &mut Vec<Mapping>, x: Mapping)
    ensures
        mappings_view(final(out)@) == insert_sorted(mappings_view(old(out)@), x@, mapping_order()),
{
    let ghost s = mappings_view(out@);
    let mut j: usize = 0;
    while j < out.len() && !mapping_less(&x, &out[j])
        invariant
            j <= out@.len(),
            s == mappings_view(out@),
            forall|t: int| 0 <= t < j ==> !mapping_order()(x@, #[trigger] s[t]),
        decreases out.len() - j,
    {
        j = j + 1;
    }
    proof {
        lemma_insert_sorted_at(s, x@, mapping_order(), j as int);
    }
    let ghost xv = x@;
    out.insert(j, x);
    assert(mappings_view(out@) =~= s.insert(j as int, xv));
}

/// Places `x` into the sorted `out`.
fn insert_unmapped(out: &mut Vec<Unmapped>, x: Unmapped)
    ensures
        unmapped_view(final(out)@) == insert_sorted(unmapped_view(old(out)@), x@, unmapped_order()),
{
    let ghost s = unmapped_view(out@);
    let mut j: usize = 0;
    while j < out.len() && !string_lt(&x.aidl, &out[j].aidl)
        invariant
            j <= out@.len(),
            s == unmapped_view(out@),
            forall|t: int| 0 <= t < j ==> !unmapped_order()(x@, #[trigger] s[t]),
        decreases out.len() - j,
    {
        j = j + 1;
    }
    proof {
        lemma_insert_sorted_at(s, x@, unmapped_order(), j as int);
    }
    let ghost xv = x@;
    out.insert(j, x);
    assert(unmapped_view(out@) =~= s.insert(j as int, xv));
}

/// Places `x` into the sorted `out`.
fn insert_debug(out: &mut Vec<DebugEntry>, x: DebugEntry)
    ensures
        debug_view(final(out)@) == insert_sorted(debug_view(old(out)@), x@, debug_order()),
{
    let ghost s = debug_view(out@);
    let mut j: usize = 0;
    while j < out.len() && !string_lt(&x.fqn, &out[j].fqn)
        invariant
            j <= out@.len(),
            s == debug_view(out@),
            forall|t: int| 0 <= t < j ==> !debug_order()(x@, #[trigger] s[t]),
        decreases out.len() - j,
    {
        j = j + 1;
    }
    proof {
        lemma_insert_sorted_at(s, x@, debug_order(), j as int);
    }
    let ghost xv = x@;
    out.insert(j, x);
    assert(debug_view(out@) =~= s.insert(j as int, xv));
}

/// Whether `out` holds a mapping equal to `x`.
fn mappings_contain(out: &Vec<Mapping>, x: &Mapping) -> (b: bool)
    ensures
        b == mappings_view(out@).contains(x@),
{
    let mut i: usize = 0;
    while i < out.len()
        invariant
            i <= out@.len(),
            forall|t: int| 0 <= t < i ==> out@[t]@ != x@,
        decreases out.len() - i,
    {
        if out[i].same_as(x) {
            assert(mappings_view(out@)[i as int] == x@);
            return true;
        }
        i = i + 1;
    }
    assert forall|t: int| 0 <= t < mappings_view(out@).len() implies mappings_view(out@)[t] != x@ by {}
    false
}

/// Assemble the report of the traces of the AIDL methods: the mappings of
/// every trace, each line once, sorted by (aidl, public class, method, desc,
/// hops, jar); the untraced methods with their reason, sorted by name; and the
/// debug entry of every trace, sorted by name (both sorts keep ties in trace
/// order).
pub fn assemble_report(traces: Vec<AidlTrace>) -> (r: Report)
    ensures
        mappings_view(r.mappings@) == sort_by(
            crate::text::dedup(all_mappings(traces_view(traces@))),
            mapping_order(),
        ),
        unmapped_view(r.unmapped@) == sort_by(unmapped_of(traces_view(traces@)), unmapped_order()),
        debug_view(r.debug@) == debug_entries(traces_view(traces@)),
{
    let ghost ts = traces_view(traces@);
    let ghost dv = ts.map_values(|t: SpecAidlTrace| debug_of(t));
    let mut mappings: Vec<Mapping> = Vec::new();
    let mut unmapped: Vec<Unmapped> = Vec::new();
    let mut debug: Vec<DebugEntry> = Vec::new();
    let no_public_path = String::from_str("NO_PUBLIC_PATH");
    let no_callers = String::from_str("NO_CALLERS_FOUND");
    assert(ts.take(0) =~= Seq::<SpecAidlTrace>::empty());
    assert(dv.take(0) =~= Seq::<SpecDebugEntry>::empty());
    assert(mappings_view(mappings@) =~= Seq::<SpecMapping>::empty());
    assert(unmapped_view(unmapped@) =~= Seq::<SpecUnmapped>::empty());
    assert(debug_view(debug@) =~= Seq::<SpecDebugEntry>::empty());
    let mut i: usize = 0;
    while i < traces.len()
        invariant
            i <= traces@.len(),
            ts == traces_view(traces@),
            dv == ts.map_values(|t: SpecAidlTrace| debug_of(t)),
            no_public_path@ == "NO_PUBLIC_PATH"@,
            no_callers@ == "NO_CALLERS_FOUND"@,
            mappings_view(mappings@) == sort_by(
                crate::text::dedup(all_mappings(ts.take(i as int))),
                mapping_order(),
            ),
            unmapped_view(unmapped@) == sort_by(unmapped_of(ts.take(i as int)), unmapped_order()),
            debug_view(debug@) == sort_by(dv.take(i as int), debug_order()),
        decreases traces.len() - i,
    {
        let t = &traces[i];
        let ghost base = all_mappings(ts.take(i as int));
        proof {
            assert(ts.take(i + 1).drop_last() =~= ts.take(i as int));
            assert(ts.take(i + 1).last() == t@);
            assert(dv.take(i + 1) =~= dv.take(i as int).push(debug_of(t@)));
            assert(dv.take(i + 1).drop_last() =~= dv.take(i as int));
        }
        let mut j: usize = 0;
        assert(base + t@.mappings.take(0) =~= base);
        while j < t.mappings.len()
            invariant
                i < traces@.len(),
                t == traces@[i as int],
                j <= t.mappings@.len(),
                mappings_view(mappings@) == sort_by(
                    crate::text::dedup(base + t@.mappings.take(j as int)),
                    mapping_order(),
                ),
            decreases t.mappings.len() - j,
        {
            let m = &t.mappings[j];
            let ghost pre = base + t@.mappings.take(j as int);
            let ghost d = crate::text::dedup(pre);
            proof {
                assert(t@.mappings[j as int] == m@);
                assert(base + t@.mappings.take(j + 1) =~= pre.push(m@));
                assert(pre.push(m@).drop_last() =~= pre);
                lemma_sort_by_contains(d, mapping_order(), m@);
            }
            if !mappings_contain(&mappings, m) {
                insert_mapping(&mut mappings, m.duplicate());
                proof {
                    assert(d.push(m@).drop_last() =~= d);
                }
            }
            j = j + 1;
        }
        assert(t@.mappings.take(t.mappings@.len() as int) =~= t@.mappings);
        if !t.mapped {
            let reason = if t.has_callers {
                no_public_path.clone()
            } else {
                no_callers.clone()
            };
            insert_unmapped(&mut unmapped, Unmapped { aidl: t.fqn.clone(), reason });
            proof {
                let u = unmapped_of(ts.take(i as int));
                let x = SpecUnmapped { aidl: t@.fqn, reason: unmapped_reason(t@.has_callers) };
                assert(u.push(x).drop_last() =~= u);
            }
        }
        insert_debug(&mut debug, DebugEntry { fqn: t.fqn.clone(), mapped: t.mapped, path: t.path.clone() });
        i = i + 1;
    }
    assert(ts.take(traces@.len() as int) =~= ts);
    assert(dv.take(traces@.len() as int) =~= dv);
    Report { mappings, unmapped, debug }
}

/// The record of tracing the AIDL method `a`, as the report gathers it.
pub fn trace_aidl(idx: &Index, a: &MethodRef, all_paths: bool) -> (r: AidlTrace)
    requires
        idx.wf(),
    ensures
        r.fqn@ == crate::dex::spec_fqn(a@),
        r.has_callers == (callers_along(idx.edges(), a@).len() > 0),
        exists|k: nat|
            crate::trace::walk_done(#[trigger] crate::trace::walk(*idx, a@, all_paths, k))
                && crate::trace::walk_outcome(*idx, crate::trace::walk(*idx, a@, all_paths, k)) == (
                mappings_view(r.mappings@),
                r.path@,
                r.mapped,
            ),
{
    let t: Trace = trace(idx, a, all_paths);
    let has_callers = idx.has_callers(a);
    let Trace { mappings, path, mapped } = t;
    AidlTrace { fqn: a.fqn(), mapped, has_callers, path, mappings }
}

/// The debug log: per AIDL method, its status, name, and call chain.
pub open spec fn debug_log_text(es: Seq<SpecDebugEntry>) -> Seq<char>
    decreases es.len(),
{
    if es.len() == 0 {
        Seq::empty()
    } else {
        let e = es.last();
        debug_log_text(es.drop_last()) + (if e.mapped { "[MAPPED]"@ } else { "[UNMAPPED]"@ }) + " "@
            + e.fqn + "\n    PATH:\n"@ + e.path + "\n"@
    }
}

/// The header row of the mapping table.
pub open spec fn mapping_header() -> Seq<Seq<char>> {
    seq!["BINDER_INTERFACE_METHOD"@, "PUBLIC_API_CLASS"@, "METHOD"@, "DESC"@, "HOPS"@, "JAR"@]
}

/// The row of a mapping.
pub open spec fn mapping_row(m: SpecMapping) -> Seq<Seq<char>> {
    seq![m.aidl, m.public_class, m.method, m.desc, decimal(m.hops as nat), m.jar]
}

/// The header row of the unmapped table.
pub open spec fn unmapped_header() -> Seq<Seq<char>> {
    seq!["AIDL_METHOD"@, "REASON"@]
}

/// The row of an unmapped method.
pub open spec fn unmapped_row(u: SpecUnmapped) -> Seq<Seq<char>> {
    seq![u.aidl, u.reason]
}

/// The views of rows of strings.
pub open spec fn rows_view(rows: Seq<Vec<String>>) -> Seq<Seq<Seq<char>>> {
    rows.map_values(|r: Vec<String>| strings_view(r@))
}


impl Report {
    /// The debug log text (`trace_debug.log`): per AIDL method, in order,
    /// `[MAPPED]` or `[UNMAPPED]`, its name, and its call chain.
    pub fn debug_log(&self) -> (s: String)
        ensures
            s@ == debug_log_text(debug_view(self.debug@)),
    {
        let ghost dv = debug_view(self.debug@);
        let mut s = String::new();
        let mut i: usize = 0;
        assert(dv.take(0) =~= Seq::<SpecDebugEntry>::empty());
        while i < self.debug.len()
            invariant
                i <= self.debug@.len(),
                dv == debug_view(self.debug@),
                s@ == debug_log_text(dv.take(i as int)),
            decreases self.debug.len() - i,
        {
            let e = &self.debug[i];
            let ghost s0 = s@;
            if e.mapped {
                append_str(&mut s, "[MAPPED]");
            } else {
                append_str(&mut s, "[UNMAPPED]");
            }
            append_str(&mut s, " ");
            append_str(&mut s, e.fqn.as_str());
            append_str(&mut s, "\n    PATH:\n");
            append_str(&mut s, e.path.as_str());
            append_str(&mut s, "\n");
            proof {
                assert(dv.take(i + 1).drop_last() =~= dv.take(i as int));
                assert(dv.take(i + 1).last() == e@);
                let st = if e.mapped { "[MAPPED]"@ } else { "[UNMAPPED]"@ };
                assert(s@ =~= s0 + st + " "@ + e.fqn@ + "\n    PATH:\n"@ + e.path@ + "\n"@);
            }
            i = i + 1;
        }
        assert(dv.take(self.debug@.len() as int) =~= dv);
        s
    }

    /// The rows of the mapping table (`binder_mapping.csv`): the header, then
    /// one row per mapping.
    pub fn mapping_rows(&self) -> (rows: Vec<Vec<String>>)
        ensures
            rows_view(rows@) == seq![mapping_header()] + mappings_view(self.mappings@).map_values(
                |m: SpecMapping| mapping_row(m),
            ),
    {
        let ghost mv = mappings_view(self.mappings@).map_values(|m: SpecMapping| mapping_row(m));
        let mut rows: Vec<Vec<String>> = Vec::new();
        let mut h: Vec<String> = Vec::new();
        h.push(String::from_str("BINDER_INTERFACE_METHOD"));
        h.push(String::from_str("PUBLIC_API_CLASS"));
        h.push(String::from_str("METHOD"));
        h.push(String::from_str("DESC"));
        h.push(String::from_str("HOPS"));
        h.push(String::from_str("JAR"));
        assert(strings_view(h@) =~= mapping_header());
        rows.push(h);
        let mut i: usize = 0;
        assert(rows_view(rows@) =~= seq![mapping_header()] + mv.take(0));
        while i < self.mappings.len()
            invariant
                i <= self.mappings@.len(),
                mv == mappings_view(self.mappings@).map_values(|m: SpecMapping| mapping_row(m)),
                rows_view(rows@) == seq![mapping_header()] + mv.take(i as int),
            decreases self.mappings.len() - i,
        {
            let m = &self.mappings[i];
            let mut r: Vec<String> = Vec::new();
            r.push(m.aidl.clone());
            r.push(m.public_class.clone());
            r.push(m.method.clone());
            r.push(m.desc.clone());
            r.push(decimal_string(m.hops));
            r.push(m.jar.clone());
            assert(strings_view(r@) =~= mapping_row(m@));
            let ghost r0 = rows_view(rows@);
            rows.push(r);
            assert(rows_view(rows@) =~= r0.push(mapping_row(m@)));
            assert(mv.take(i + 1) =~= mv.take(i as int).push(mv[i as int]));
            i = i + 1;
        }
        assert(mv.take(self.mappings@.len() as int) =~= mv);
        rows
    }

    /// The rows of the unmapped table (`unmapped_aidl.csv`): the header, then
    /// one row per unmapped method.
    pub fn unmapped_rows(&self) -> (rows: Vec<Vec<String>>)
        ensures
            rows_view(rows@) == seq![unmapped_header()] + unmapped_view(self.unmapped@).map_values(
                |u: SpecUnmapped| unmapped_row(u),
            ),
    {
        let ghost uv = unmapped_view(self.unmapped@).map_values(|u: SpecUnmapped| unmapped_row(u));
        let mut rows: Vec<Vec<String>> = Vec::new();
        let mut h: Vec<String> = Vec::new();
        h.push(String::from_str("AIDL_METHOD"));
        h.push(String::from_str("REASON"));
        assert(strings_view(h@) =~= unmapped_header());
        rows.push(h);
        let mut i: usize = 0;
        assert(rows_view(rows@) =~= seq![unmapped_header()] + uv.take(0));
        while i < self.unmapped.len()
            invariant
                i <= self.unmapped@.len(),
                uv == unmapped_view(self.unmapped@).map_values(|u: SpecUnmapped| unmapped_row(u)),
                rows_view(rows@) == seq![unmapped_header()] + uv.take(i as int),
            decreases self.unmapped.len() - i,
        {
            let u = &self.unmapped[i];
            let mut r: Vec<String> = Vec::new();
            r.push(u.aidl.clone());
            r.push(u.reason.clone());
            assert(strings_view(r@) =~= unmapped_row(u@));
            let ghost r0 = rows_view(rows@);
            rows.push(r);
            assert(rows_view(rows@) =~= r0.push(unmapped_row(u@)));
            assert(uv.take(i + 1) =~= uv.take(i as int).push(uv[i as int]));
            i = i + 1;
        }
        assert(uv.take(self.unmapped@.len() as int) =~= uv);
        rows
    }
}

} // verus!
