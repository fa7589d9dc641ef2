//! The reverse call graph and the class-hierarchy facts the tracer walks: which
//! methods call a given method, each class's transitive ancestors, which
//! concrete methods override a public-API method, and which interfaces are AIDL
//! entrypoints.

use vstd::prelude::*;
use vstd::hash_set::StringHashSet;
use crate::ancestry::{close_ancestors, is_ancestor, lemma_no_parents_no_ancestor};
use crate::dex::{
    classes_view, refs_view, spec_signature, Class, MethodRef, SpecClass, SpecMethod,
    SpecMethodRef, ACC_INTERFACE, ACC_SYNTHETIC,
};
use crate::reverse::{callers_along, callers_in, Edge, ReverseIndex};
use crate::table::{
    first_of_names, invoke_edges, lemma_named_name, lemma_named_push, method_edges, method_ref_of,
    named, spec_edges, ClassTable,
};
use crate::text::{chars_of, starts_with, starts_with_at, strings_view, UniqueStrings};

verus! {

/// `android/os/IInterface`, the root of every AIDL interface.
pub open spec fn iinterface_name() -> Seq<char> {
    "android/os/IInterface"@
}

/// A public-facing namespace: `android.*` or `com.android.*`, excluding the
/// Binder runtime and `com.android.internal`.
pub open spec fn spec_is_public_namespace(owner: Seq<char>) -> bool {
    (starts_with(owner, "android/"@) || starts_with(owner, "com/android/"@)) && !starts_with(
        owner,
        "android/os/Binder"@,
    ) && !starts_with(owner, "com/android/internal/"@)
}

/// An AIDL entrypoint name: not a constructor or initializer (`<...>`) and not
/// `asBinder`.
pub open spec fn is_entry_name(name: Seq<char>) -> bool {
    !starts_with(name, seq!['<']) && name != "asBinder"@
}

/// The entrypoints among the methods `ms` of class `c`, in order.
pub open spec fn entry_refs(c: SpecClass, ms: Seq<SpecMethod>) -> Seq<SpecMethodRef>
    decreases ms.len(),
{
    if ms.len() == 0 {
        Seq::empty()
    } else if is_entry_name(ms.last().name) {
        entry_refs(c, ms.drop_last()).push(method_ref_of(c, ms.last()))
    } else {
        entry_refs(c, ms.drop_last())
    }
}

/// Whether `c` is an AIDL interface: an interface that transitively extends
/// `android.os.IInterface`.
pub open spec fn is_aidl_interface(cs: Seq<SpecClass>, c: SpecClass) -> bool {
    c.access & ACC_INTERFACE != 0 && is_ancestor(cs, c.name, iinterface_name())
}

/// The AIDL entrypoints declared by the classes `hs`, in order.
pub open spec fn aidl_entries(cs: Seq<SpecClass>, hs: Seq<SpecClass>) -> Seq<SpecMethodRef>
    decreases hs.len(),
{
    if hs.len() == 0 {
        Seq::empty()
    } else if is_aidl_interface(cs, hs.last()) {
        aidl_entries(cs, hs.drop_last()) + entry_refs(hs.last(), hs.last().methods)
    } else {
        aidl_entries(cs, hs.drop_last())
    }
}

/// The AIDL entrypoints of the classes `cs`: the methods, constructors and
/// `asBinder` aside, of each (first-of-its-name) interface that transitively
/// extends `android.os.IInterface`.
pub open spec fn spec_aidl_methods(cs: Seq<SpecClass>) -> Seq<SpecMethodRef> {
    aidl_entries(cs, first_of_names(cs))
}

/// `m` is a method of `c`, the first class of its name, whose access has the
/// `ACC_INTERFACE` bit (whatever other flags it carries) and which
/// transitively extends `android/os/IInterface`; `m` is neither a
/// constructor or initializer (`<...>`) nor `asBinder`.
pub open spec fn interface_entry(cs: Seq<SpecClass>, c: SpecClass, m: SpecMethodRef) -> bool {
    &&& named(cs, c.name) == Some(c)
    &&& c.access & ACC_INTERFACE != 0
    &&& is_ancestor(cs, c.name, "android/os/IInterface"@)
    &&& m.owner == c.name
    &&& !(m.name.len() > 0 && m.name[0] == '<')
    &&& m.name != "asBinder"@
    &&& exists|k: int| 0 <= k < c.methods.len() && (#[trigger] c.methods[k]).name == m.name && c.methods[k].desc == m.desc
}

/// The classes first under their name are exactly those `named` gives.
proof fn lemma_first_of_names_contains(cs: Seq<SpecClass>, c: SpecClass)
    ensures
        first_of_names(cs).contains(c) <==> named(cs, c.name) == Some(c),
    decreases cs.len(),
{
    if cs.len() > 0 {
        let p = cs.drop_last();
        let x = cs.last();
        lemma_first_of_names_contains(p, c);
        lemma_named_push(p, x, c.name);
        assert(p.push(x) =~= cs);
        lemma_named_name(p, c.name);
        lemma_named_name(p, x.name);
        if named(p, x.name) is None {
            let f = first_of_names(p);
            assert(f.push(x)[f.len() as int] == x);
            if f.push(x).contains(c) && c != x {
                let k = choose|k: int| 0 <= k < f.push(x).len() && f.push(x)[k] == c;
                assert(f[k] == c);
            }
            if f.contains(c) {
                let k = choose|k: int| 0 <= k < f.len() && f[k] == c;
                assert(f.push(x)[k] == c);
            }
        }
    }
}

/// `entry_refs` lists the entry-named methods of `c` among `ms`.
proof fn lemma_entry_refs_contains(c: SpecClass, ms: Seq<SpecMethod>, m: SpecMethodRef)
    ensures
        entry_refs(c, ms).contains(m) <==> exists|k: int|
            0 <= k < ms.len() && is_entry_name((#[trigger] ms[k]).name) && m == method_ref_of(c, ms[k]),
    decreases ms.len(),
{
    if ms.len() > 0 {
        let p = ms.drop_last();
        lemma_entry_refs_contains(c, p, m);
        let r = entry_refs(c, p);
        if is_entry_name(ms.last().name) {
            let r2 = r.push(method_ref_of(c, ms.last()));
            assert(r2[r.len() as int] == method_ref_of(c, ms.last()));
            if r2.contains(m) {
                let k = choose|k: int| 0 <= k < r2.len() && r2[k] == m;
                if k < r.len() {
                    assert(r[k] == m);
                }
            }
            if r.contains(m) {
                let k = choose|k: int| 0 <= k < r.len() && r[k] == m;
                assert(r2[k] == m);
            }
        }
        if exists|k: int| 0 <= k < ms.len() && is_entry_name((#[trigger] ms[k]).name) && m == method_ref_of(c, ms[k]) {
            let k = choose|k: int| 0 <= k < ms.len() && is_entry_name((#[trigger] ms[k]).name) && m == method_ref_of(c, ms[k]);
            if k < ms.len() - 1 {
                assert(p[k] == ms[k]);
            }
        }
        if exists|k: int| 0 <= k < p.len() && is_entry_name((#[trigger] p[k]).name) && m == method_ref_of(c, p[k]) {
            let k = choose|k: int| 0 <= k < p.len() && is_entry_name((#[trigger] p[k]).name) && m == method_ref_of(c, p[k]);
            assert(ms[k] == p[k]);
        }
    }
}

/// `aidl_entries` lists the entries of the AIDL interfaces among `hs`.
proof fn lemma_aidl_entries_contains(cs: Seq<SpecClass>, hs: Seq<SpecClass>, m: SpecMethodRef)
    ensures
        aidl_entries(cs, hs).contains(m) <==> exists|j: int|
            0 <= j < hs.len() && is_aidl_interface(cs, #[trigger] hs[j]) && entry_refs(hs[j], hs[j].methods).contains(m),
    decreases hs.len(),
{
    if hs.len() > 0 {
        let p = hs.drop_last();
        lemma_aidl_entries_contains(cs, p, m);
        let a = aidl_entries(cs, p);
        let x = hs.last();
        if is_aidl_interface(cs, x) {
            let e = entry_refs(x, x.methods);
            if (a + e).contains(m) {
                let k = choose|k: int| 0 <= k < (a + e).len() && (a + e)[k] == m;
                if k < a.len() {
                    assert(a[k] == m);
                } else {
                    assert(e[k - a.len()] == m);
                    assert(hs[hs.len() - 1] == x);
                }
            }
            if a.contains(m) {
                let k = choose|k: int| 0 <= k < a.len() && a[k] == m;
                assert((a + e)[k] == m);
            }
            if e.contains(m) {
                let k = choose|k: int| 0 <= k < e.len() && e[k] == m;
                assert((a + e)[a.len() + k] == m);
            }
        }
        if exists|j: int| 0 <= j < hs.len() && is_aidl_interface(cs, #[trigger] hs[j]) && entry_refs(hs[j], hs[j].methods).contains(m) {
            let j = choose|j: int| 0 <= j < hs.len() && is_aidl_interface(cs, #[trigger] hs[j]) && entry_refs(hs[j], hs[j].methods).contains(m);
            if j < hs.len() - 1 {
                assert(p[j] == hs[j]);
            }
        }
        if exists|j: int| 0 <= j < p.len() && is_aidl_interface(cs, #[trigger] p[j]) && entry_refs(p[j], p[j].methods).contains(m) {
            let j = choose|j: int| 0 <= j < p.len() && is_aidl_interface(cs, #[trigger] p[j]) && entry_refs(p[j], p[j].methods).contains(m);
            assert(hs[j] == p[j]);
        }
    }
}

/// The AIDL entrypoints are exactly the methods, constructors, initializers
/// and `asBinder` aside, of each first class of its name whose access has the
/// `ACC_INTERFACE` bit set, whatever other flags it carries, and that
/// transitively extends `android/os/IInterface`.
pub proof fn lemma_aidl_methods(cs: Seq<SpecClass>, m: SpecMethodRef)
    ensures
        spec_aidl_methods(cs).contains(m) <==> exists|c: SpecClass| #[trigger] interface_entry(cs, c, m),
{
    let hs = first_of_names(cs);
    lemma_aidl_entries_contains(cs, hs, m);
    reveal_strlit("asBinder");
    if spec_aidl_methods(cs).contains(m) {
        let j = choose|j: int| 0 <= j < hs.len() && is_aidl_interface(cs, #[trigger] hs[j]) && entry_refs(hs[j], hs[j].methods).contains(m);
        let c = hs[j];
        lemma_first_of_names_contains(cs, c);
        assert(hs.contains(c));
        lemma_entry_refs_contains(c, c.methods, m);
        let k = choose|k: int| 0 <= k < c.methods.len() && is_entry_name((#[trigger] c.methods[k]).name) && m == method_ref_of(c, c.methods[k]);
        let nm = c.methods[k].name;
        if nm.len() > 0 && nm[0] == '<' {
            assert(nm.take(1) =~= seq!['<']);
        }
        assert(interface_entry(cs, c, m));
    }
    if exists|c: SpecClass| #[trigger] interface_entry(cs, c, m) {
        let c = choose|c: SpecClass| #[trigger] interface_entry(cs, c, m);
        lemma_first_of_names_contains(cs, c);
        let j = choose|j: int| 0 <= j < hs.len() && hs[j] == c;
        let k = choose|k: int| 0 <= k < c.methods.len() && (#[trigger] c.methods[k]).name == m.name && c.methods[k].desc == m.desc;
        assert(is_entry_name(c.methods[k].name)) by {
            if starts_with(c.methods[k].name, seq!['<']) {
                assert(c.methods[k].name.take(1)[0] == '<');
            }
        }
        lemma_entry_refs_contains(c, c.methods, m);
        assert(m == method_ref_of(c, c.methods[k]));
        assert(is_aidl_interface(cs, hs[j]));
    }
}

/// `<init>`.
pub open spec fn init_name() -> Seq<char> {
    "<init>"@
}

/// The callers of the constructors among `ms`, constructor by constructor.
pub open spec fn ctor_callers(es: Seq<Edge>, owner: Seq<char>, ms: Seq<SpecMethod>) -> Seq<SpecMethodRef>
    decreases ms.len(),
{
    if ms.len() == 0 {
        Seq::empty()
    } else if ms.last().name == init_name() {
        ctor_callers(es, owner, ms.drop_last()) + callers_in(
            es,
            SpecMethodRef { owner, name: init_name(), desc: ms.last().desc },
        )
    } else {
        ctor_callers(es, owner, ms.drop_last())
    }
}

/// `c` declares a method `name` with descriptor `desc`.
pub open spec fn has_method(c: SpecClass, name: Seq<char>, desc: Seq<char>) -> bool {
    exists|j: int| 0 <= j < c.methods.len() && (#[trigger] c.methods[j]).name == name && c.methods[j].desc == desc
}

/// The first of `ancs` that declares `name+desc` in the public SDK, in a public
/// namespace.
pub open spec fn first_public_parent(
    public: Set<Seq<char>>,
    ancs: Seq<Seq<char>>,
    name: Seq<char>,
    desc: Seq<char>,
) -> Option<SpecMethodRef>
    decreases ancs.len(),
{
    if ancs.len() == 0 {
        None
    } else {
        let cand = SpecMethodRef { owner: ancs[0], name, desc };
        if public.contains(spec_signature(cand)) && spec_is_public_namespace(ancs[0]) {
            Some(cand)
        } else {
            first_public_parent(public, ancs.drop_first(), name, desc)
        }
    }
}

/// What `first_public_parent` finds: one of `ancs` that qualifies, and it
/// finds one whenever one qualifies.
pub proof fn lemma_first_public_parent(
    public: Set<Seq<char>>,
    ancs: Seq<Seq<char>>,
    name: Seq<char>,
    desc: Seq<char>,
)
    ensures
        first_public_parent(public, ancs, name, desc) matches Some(p) ==> {
            &&& ancs.contains(p.owner)
            &&& p.name == name
            &&& p.desc == desc
            &&& public.contains(spec_signature(p))
            &&& spec_is_public_namespace(p.owner)
        },
        first_public_parent(public, ancs, name, desc) is None <==> !exists|a: Seq<char>|
            #[trigger] ancs.contains(a) && public.contains(
                spec_signature(SpecMethodRef { owner: a, name, desc }),
            ) && spec_is_public_namespace(a),
    decreases ancs.len(),
{
    if ancs.len() > 0 {
        lemma_first_public_parent(public, ancs.drop_first(), name, desc);
        let cand = SpecMethodRef { owner: ancs[0], name, desc };
        if public.contains(spec_signature(cand)) && spec_is_public_namespace(ancs[0]) {
            assert(ancs.contains(ancs[0]));
        } else {
            if let Some(p) = first_public_parent(public, ancs.drop_first(), name, desc) {
                let k = choose|k: int| 0 <= k < ancs.drop_first().len() && ancs.drop_first()[k] == p.owner;
                assert(ancs[k + 1] == p.owner);
            }
            assert forall|a: Seq<char>| #[trigger] ancs.contains(a) && a != ancs[0] implies ancs.drop_first().contains(a) by {
                let k = choose|k: int| 0 <= k < ancs.len() && ancs[k] == a;
                assert(ancs.drop_first()[k - 1] == a);
            }
            assert forall|a: Seq<char>| #[trigger] ancs.drop_first().contains(a) implies ancs.contains(a) by {
                let k = choose|k: int| 0 <= k < ancs.drop_first().len() && ancs.drop_first()[k] == a;
                assert(ancs[k + 1] == a);
            }
        }
    }
}

/// Everything the reverse trace queries, computed once from the loaded classes
/// and the public-API oracle.
pub struct Index {
    table: ClassTable,
    ancestors: Vec<UniqueStrings>,
    public_sigs: StringHashSet,
    reverse: ReverseIndex,
}

impl Index {
    /// The classes the index was built from, in order, duplicates included.
    pub closed spec fn source(&self) -> Seq<SpecClass> {
        self.table.source()
    }

    /// The public SDK method signatures (`owner/name+desc`).
    pub closed spec fn public_set(&self) -> Set<Seq<char>> {
        self.public_sigs@
    }

    /// The transitive ancestors of the class named `n`, in the order the index
    /// keeps them (none when there is no such class).
    pub closed spec fn ancestors_in(&self, n: Seq<char>) -> Seq<Seq<char>> {
        if named(self.table.source(), n) is Some {
            self.ancestors@[self.table.position(n)]@
        } else {
            Seq::empty()
        }
    }

    /// The call edges of the classes, in order.
    pub open spec fn edges(&self) -> Seq<Edge> {
        spec_edges(self.source())
    }

    /// The first class named `n`.
    pub open spec fn class_named(&self, n: Seq<char>) -> Option<SpecClass> {
        named(self.source(), n)
    }

    /// A method that is itself a public SDK method (signature present, and in
    /// a public namespace).
    pub open spec fn spec_is_public(&self, m: SpecMethodRef) -> bool {
        self.public_set().contains(spec_signature(m)) && spec_is_public_namespace(m.owner)
    }

    /// The public-API method that the concrete method `m` overrides or
    /// implements: `m` is declared by the first class of its owner's name, and
    /// the first of its owner's ancestors that declares the same name and
    /// descriptor in the public SDK, in a public namespace, gives it.
    pub open spec fn spec_public_override(&self, m: SpecMethodRef) -> Option<SpecMethodRef> {
        match self.class_named(m.owner) {
            Some(c) => if has_method(c, m.name, m.desc) {
                first_public_parent(self.public_set(), self.ancestors_in(m.owner), m.name, m.desc)
            } else {
                None
            },
            None => None,
        }
    }

    /// The jar of the first class named `owner`, `UNKNOWN` when there is none.
    pub open spec fn spec_jar(&self, owner: Seq<char>) -> Seq<char> {
        match self.class_named(owner) {
            Some(c) => c.jar,
            None => "UNKNOWN"@,
        }
    }

    /// Whether the first class named `owner` is synthetic.
    pub open spec fn spec_is_synthetic(&self, owner: Seq<char>) -> bool {
        match self.class_named(owner) {
            Some(c) => c.access & ACC_SYNTHETIC != 0,
            None => false,
        }
    }

    /// The methods that construct instances of `owner`: the callers of each of
    /// its constructors, constructor by constructor.
    pub open spec fn spec_constructor_callers(&self, owner: Seq<char>) -> Seq<SpecMethodRef> {
        match self.class_named(owner) {
            Some(c) => ctor_callers(self.edges(), owner, c.methods),
            None => Seq::empty(),
        }
    }

    /// The internal invariant.
    pub closed spec fn wf(&self) -> bool {
        &&& self.table.wf()
        &&& self.reverse.wf()
        &&& self.reverse.edges() == spec_edges(self.table.source())
        &&& self.ancestors@.len() == self.table.held().len()
        &&& forall|i: int|
            0 <= i < self.ancestors@.len() ==> (#[trigger] self.ancestors@[i]).wf()
                && self.ancestors@[i]@.no_duplicates() && forall|a: Seq<char>|
                self.ancestors@[i]@.contains(a) <==> is_ancestor(
                    self.table.source(),
                    self.table.held()[i].name,
                    a,
                )
    }

    /// Builds the index of `classes` (the first class of a given name wins
    /// for the hierarchy; the call edges of every class are kept) against the
    /// public SDK signatures `public_sigs`.
    pub fn build(classes: Vec<Class>, public_sigs: Vec<String>) -> (idx: Index)
        ensures
            idx.wf(),
            idx.source() == classes_view(classes@),
            forall|s: Seq<char>| idx.public_set().contains(s) <==> strings_view(public_sigs@).contains(s),
    {
        let table = ClassTable::new(&classes);
        let ghost cs = classes_view(classes@);
        // Reverse edges: callee -> callers, over every class.
        let mut reverse = ReverseIndex::new();
        let mut i: usize = 0;
        assert(cs.take(0) =~= Seq::<SpecClass>::empty());
        while i < classes.len()
            invariant
                i <= classes@.len(),
                cs == classes_view(classes@),
                reverse.wf(),
                reverse.edges() == spec_edges(cs.take(i as int)),
            decreases classes.len() - i,
        {
            let c = &classes[i];
            let ghost base = spec_edges(cs.take(i as int));
            let mut j: usize = 0;
            assert(c@.methods.take(0) =~= Seq::<SpecMethod>::empty());
            assert(base + method_edges(c@, c@.methods.take(0)) =~= base);
            while j < c.methods.len()
                invariant
                    i < classes@.len(),
                    c == classes@[i as int],
                    j <= c.methods@.len(),
                    reverse.wf(),
                    reverse.edges() == base + method_edges(c@, c@.methods.take(j as int)),
                decreases c.methods.len() - j,
            {
                let m = &c.methods[j];
                let caller = MethodRef { owner: c.name.clone(), name: m.name.clone(), desc: m.desc.clone() };
                let ghost mid = reverse.edges();
                let mut k: usize = 0;
                assert(invoke_edges(caller@, m@.invokes.take(0)) =~= Seq::<Edge>::empty());
                assert(mid + invoke_edges(caller@, m@.invokes.take(0)) =~= mid);
                while k < m.invokes.len()
                    invariant
                        i < classes@.len(),
                        c == classes@[i as int],
                        j < c.methods@.len(),
                        m == c.methods@[j as int],
                        reverse.wf(),
                        reverse.edges() == mid + invoke_edges(caller@, m@.invokes.take(k as int)),
                        k <= m.invokes@.len(),
                    decreases m.invokes.len() - k,
                {
                    let ghost e0 = reverse.edges();
                    reverse.add_edge(&caller, &m.invokes[k]);
                    proof {
                        assert(m@.invokes[k as int] == m.invokes@[k as int]@);
                        assert(invoke_edges(caller@, m@.invokes.take(k + 1)) =~= invoke_edges(
                            caller@,
                            m@.invokes.take(k as int),
                        ).push((caller@, m.invokes@[k as int]@)));
                        assert(mid + invoke_edges(caller@, m@.invokes.take(k + 1)) =~= e0.push(
                            (caller@, m.invokes@[k as int]@),
                        ));
                    }
                    k = k + 1;
                }
                proof {
                    assert(m@.invokes.take(m.invokes@.len() as int) =~= m@.invokes);
                    assert(c@.methods.take(j + 1).drop_last() =~= c@.methods.take(j as int));
                    assert(c@.methods.take(j + 1).last() == m@);
                    assert(caller@ == method_ref_of(c@, m@));
                    assert(base + method_edges(c@, c@.methods.take(j + 1)) =~= mid + invoke_edges(
                        caller@,
                        m@.invokes,
                    ));
                }
                j = j + 1;
            }
            proof {
                assert(c@.methods.take(c.methods@.len() as int) =~= c@.methods);
                assert(cs.take(i + 1).drop_last() =~= cs.take(i as int));
                assert(cs.take(i + 1).last() == c@);
            }
            i = i + 1;
        }
        assert(cs.take(classes@.len() as int) =~= cs);
        // Each class's transitive ancestors.
        let mut ancestors: Vec<UniqueStrings> = Vec::new();
        let mut p: usize = 0;
        while p < table.len()
            invariant
                table.wf(),
                p <= table.held().len(),
                ancestors@.len() == p,
                forall|q: int|
                    0 <= q < p ==> (#[trigger] ancestors@[q]).wf() && ancestors@[q]@.no_duplicates()
                        && forall|a: Seq<char>|
                        ancestors@[q]@.contains(a) <==> is_ancestor(
                            table.source(),
                            table.held()[q].name,
                            a,
                        ),
            decreases table.held().len() - p,
        {
            let c = table.get(p);
            let anc = close_ancestors(&table, c.name.as_str());
            ancestors.push(anc);
            p = p + 1;
        }
        // The oracle.
        let mut public = StringHashSet::new();
        let mut t: usize = 0;
        while t < public_sigs.len()
            invariant
                t <= public_sigs@.len(),
                forall|s: Seq<char>| public@.contains(s) <==> strings_view(public_sigs@).take(t as int).contains(s),
            decreases public_sigs.len() - t,
        {
            let ghost pv = strings_view(public_sigs@);
            public.insert(public_sigs[t].clone());
            proof {
                assert forall|s: Seq<char>| public@.contains(s) <==> pv.take(t + 1).contains(s) by {
                    let a1 = pv.take(t + 1);
                    let a0 = pv.take(t as int);
                    if a1.contains(s) {
                        let k = choose|k: int| 0 <= k < a1.len() && a1[k] == s;
                        if k < t {
                            assert(a0[k] == s);
                        }
                    }
                    if a0.contains(s) {
                        let k = choose|k: int| 0 <= k < a0.len() && a0[k] == s;
                        assert(a1[k] == s);
                    }
                    if s == pv[t as int] {
                        assert(pv.take(t + 1)[t as int] == s);
                    }
                }
            }
            t = t + 1;
        }
        assert(strings_view(public_sigs@).take(public_sigs@.len() as int) =~= strings_view(public_sigs@));
        Index { table, ancestors, public_sigs: public, reverse }
    }

    /// AIDL entrypoints: methods declared on an interface that transitively
    /// extends `android.os.IInterface`, excluding constructors and `asBinder`.
    pub fn aidl_methods(&self) -> (r: Vec<MethodRef>)
        requires
            self.wf(),
        ensures
            refs_view(r@) == spec_aidl_methods(self.source()),
    {
        let iinterface = String::from_str("android/os/IInterface");
        let as_binder = String::from_str("asBinder");
        let ghost cs = self.source();
        let ghost hs = self.table.held();
        proof {
            self.table.lemma_held();
        }
        let mut out: Vec<MethodRef> = Vec::new();
        let mut i: usize = 0;
        assert(hs.take(0) =~= Seq::<SpecClass>::empty());
        assert(refs_view(out@) =~= Seq::<SpecMethodRef>::empty());
        while i < self.table.len()
            invariant
                self.wf(),
                cs == self.source(),
                hs == self.table.held(),
                hs == first_of_names(cs),
                iinterface@ == iinterface_name(),
                as_binder@ == "asBinder"@,
                i <= hs.len(),
                refs_view(out@) == aidl_entries(cs, hs.take(i as int)),
            decreases hs.len() - i,
        {
            let c = self.table.get(i);
            proof {
                assert(hs.take(i + 1).drop_last() =~= hs.take(i as int));
                assert(hs.take(i + 1).last() == c@);
                assert(self.ancestors@[i as int].wf());
            }
            if c.is_interface() && self.ancestors[i].contains(iinterface.as_str()) {
                let ghost base = refs_view(out@);
                let mut j: usize = 0;
                assert(c@.methods.take(0) =~= Seq::<SpecMethod>::empty());
                assert(base + entry_refs(c@, c@.methods.take(0)) =~= base);
                while j < c.methods.len()
                    invariant
                        c@ == hs[i as int],
                        iinterface@ == iinterface_name(),
                        as_binder@ == "asBinder"@,
                        j <= c.methods@.len(),
                        refs_view(out@) == base + entry_refs(c@, c@.methods.take(j as int)),
                    decreases c.methods.len() - j,
                {
                    let m = &c.methods[j];
                    let v = chars_of(m.name.as_str());
                    let init_like = v.len() > 0 && v[0] == '<';
                    proof {
                        if v@.len() > 0 {
                            assert(m.name@.take(1) =~= seq![v@[0]]);
                        }
                        if starts_with(m.name@, seq!['<']) {
                            assert(m.name@.take(1)[0] == m.name@[0]);
                        }
                        assert(c@.methods.take(j + 1).drop_last() =~= c@.methods.take(j as int));
                        assert(c@.methods.take(j + 1).last() == m@);
                    }
                    if !init_like && m.name != as_binder {
                        let ghost o0 = refs_view(out@);
                        out.push(MethodRef { owner: c.name.clone(), name: m.name.clone(), desc: m.desc.clone() });
                        assert(refs_view(out@) =~= o0.push(method_ref_of(c@, m@)));
                    }
                    j = j + 1;
                }
                assert(c@.methods.take(c.methods@.len() as int) =~= c@.methods);
            }
            i = i + 1;
        }
        assert(hs.take(hs.len() as int) =~= hs);
        out
    }

    /// The methods that invoke `m`, each once, in order of their first call
    /// edge; `None` when nothing invokes it.
    pub fn callers(&self, m: &MethodRef) -> (r: Option<&Vec<MethodRef>>)
        requires
            self.wf(),
        ensures
            match r {
                Some(v) => refs_view(v@) == callers_in(self.edges(), m@) && v@.len() > 0,
                None => callers_along(self.edges(), m@).len() == 0,
            },
    {
        self.reverse.callers(m)
    }

    /// Whether anything invokes `m`.
    pub fn has_callers(&self, m: &MethodRef) -> (b: bool)
        requires
            self.wf(),
        ensures
            b == (callers_along(self.edges(), m@).len() > 0),
    {
        match self.reverse.callers(m) {
            Some(v) => {
                proof {
                    let al = callers_along(self.edges(), m@);
                    if al.len() == 0 {
                        assert(al =~= Seq::<SpecMethodRef>::empty());
                        assert(crate::text::dedup(al) =~= Seq::<SpecMethodRef>::empty());
                        assert(refs_view(v@).len() == v@.len());
                    }
                }
                true
            },
            None => false,
        }
    }

    /// The jar of the class `owner`, `UNKNOWN` when there is no such class.
    pub fn jar(&self, owner: &str) -> (r: &str)
        requires
            self.wf(),
        ensures
            r@ == self.spec_jar(owner@),
    {
        match self.table.lookup(owner) {
            Some(c) => c.jar.as_str(),
            None => "UNKNOWN",
        }
    }

    /// Whether a class named `owner` was loaded.
    pub fn has_class(&self, owner: &str) -> (b: bool)
        requires
            self.wf(),
        ensures
            b == self.class_named(owner@) is Some,
    {
        self.table.lookup(owner).is_some()
    }

    /// Whether the class `owner` is synthetic (`ACC_SYNTHETIC`), as the
    /// classes D8 desugars lambdas into are.
    pub fn is_synthetic(&self, owner: &str) -> (b: bool)
        requires
            self.wf(),
        ensures
            b == self.spec_is_synthetic(owner@),
    {
        match self.table.lookup(owner) {
            Some(c) => c.is_synthetic(),
            None => false,
        }
    }

    /// The methods that construct instances of `owner`: the callers of any of
    /// its constructors. For a synthetic (lambda) class these are its creation
    /// sites.
    pub fn constructor_callers(&self, owner: &str) -> (r: Vec<MethodRef>)
        requires
            self.wf(),
        ensures
            refs_view(r@) == self.spec_constructor_callers(owner@),
    {
        let mut out: Vec<MethodRef> = Vec::new();
        let c = match self.table.lookup(owner) {
            Some(c) => c,
            None => {
                assert(refs_view(out@) =~= Seq::<SpecMethodRef>::empty());
                return out;
            },
        };
        let init = String::from_str("<init>");
        let ghost es = self.edges();
        let mut j: usize = 0;
        assert(c@.methods.take(0) =~= Seq::<SpecMethod>::empty());
        assert(refs_view(out@) =~= Seq::<SpecMethodRef>::empty());
        while j < c.methods.len()
            invariant
                self.wf(),
                es == self.edges(),
                init@ == init_name(),
                j <= c.methods@.len(),
                refs_view(out@) == ctor_callers(es, owner@, c@.methods.take(j as int)),
            decreases c.methods.len() - j,
        {
            let m = &c.methods[j];
            proof {
                assert(c@.methods.take(j + 1).drop_last() =~= c@.methods.take(j as int));
                assert(c@.methods.take(j + 1).last() == m@);
            }
            if m.name == init {
                let ctor = MethodRef { owner: owner.to_owned(), name: init.clone(), desc: m.desc.clone() };
                match self.reverse.callers(&ctor) {
                    Some(callers) => {
                        let ghost o0 = refs_view(out@);
                        let mut k: usize = 0;
                        while k < callers.len()
                            invariant
                                k <= callers@.len(),
                                refs_view(out@) == o0 + refs_view(callers@).take(k as int),
                            decreases callers.len() - k,
                        {
                            let ghost o1 = refs_view(out@);
                            out.push(callers[k].duplicate());
                            assert(refs_view(out@) =~= o1.push(callers@[k as int]@));
                            assert(refs_view(callers@).take(k + 1) =~= refs_view(callers@).take(
                                k as int,
                            ).push(callers@[k as int]@));
                            k = k + 1;
                        }
                        assert(refs_view(callers@).take(callers@.len() as int) =~= refs_view(callers@));
                    },
                    None => {
                        proof {
                            let cs = callers_in(es, ctor@);
                            crate::text::lemma_dedup(callers_along(es, ctor@));
                            assert(callers_along(es, ctor@) =~= Seq::<SpecMethodRef>::empty());
                            assert(cs =~= Seq::<SpecMethodRef>::empty()) by {
                                assert(crate::text::dedup(Seq::<SpecMethodRef>::empty()) =~= Seq::<SpecMethodRef>::empty());
                            }
                            assert(refs_view(out@) + cs =~= refs_view(out@));
                        }
                    },
                }
            }
            j = j + 1;
        }
        assert(c@.methods.take(c.methods@.len() as int) =~= c@.methods);
        out
    }

    /// A method that is itself a public SDK method (signature present, and in
    /// a public namespace).
    pub fn is_public(&self, m: &MethodRef) -> (b: bool)
        requires
            self.wf(),
        ensures
            b == self.spec_is_public(m@),
    {
        let sig = m.signature();
        self.public_sigs.contains(sig.as_str()) && is_public_namespace(m.owner.as_str())
    }

    /// The public-API method this concrete method overrides/implements, if any.
    pub fn public_override(&self, m: &MethodRef) -> (r: Option<MethodRef>)
        requires
            self.wf(),
        ensures
            match r {
                Some(p) => self.spec_public_override(m@) == Some(p@),
                None => self.spec_public_override(m@) is None,
            },
    {
        let p = match self.table.lookup_pos(m.owner.as_str()) {
            Some(p) => p,
            None => {
                return None;
            },
        };
        let c = self.table.get(p);
        proof {
            self.table.lemma_position(m.owner@);
        }
        let mut found = false;
        let mut j: usize = 0;
        while j < c.methods.len()
            invariant
                j <= c.methods@.len(),
                found ==> has_method(c@, m.name@, m.desc@),
                !found ==> forall|t: int| 0 <= t < j ==> !((#[trigger] c@.methods[t]).name == m.name@ && c@.methods[t].desc == m.desc@),
            decreases c.methods.len() - j,
        {
            if c.methods[j].name == m.name && c.methods[j].desc == m.desc {
                assert(c@.methods[j as int].name == m.name@);
                found = true;
            }
            j = j + 1;
        }
        if !found {
            return None;
        }
        self.find_public_parent(p, &m.name, &m.desc)
    }

    /// The first of the ancestors kept at position `p` that declares
    /// `name+desc` in the public SDK (and in a public namespace).
    fn find_public_parent(&self, p: usize, name: &String, desc: &String) -> (r: Option<MethodRef>)
        requires
            self.wf(),
            p < self.table.held().len(),
        ensures
            match r {
                Some(x) => first_public_parent(self.public_set(), self.ancestors@[p as int]@, name@, desc@) == Some(x@),
                None => first_public_parent(self.public_set(), self.ancestors@[p as int]@, name@, desc@) is None,
            },
    {
        let ancs = &self.ancestors[p];
        let ghost av = ancs@;
        let mut i: usize = 0;
        assert(av.skip(0) =~= av);
        while i < ancs.len()
            invariant
                self.wf(),
                ancs == self.ancestors@[p as int],
                av == ancs@,
                i <= av.len(),
                first_public_parent(self.public_set(), av, name@, desc@) == first_public_parent(
                    self.public_set(),
                    av.skip(i as int),
                    name@,
                    desc@,
                ),
            decreases av.len() - i,
        {
            let anc = ancs.get(i);
            let cand = MethodRef { owner: anc.clone(), name: name.clone(), desc: desc.clone() };
            let sig = cand.signature();
            assert(av.skip(i as int)[0] == anc@);
            if self.public_sigs.contains(sig.as_str()) && is_public_namespace(anc.as_str()) {
                return Some(cand);
            }
            assert(av.skip(i as int).drop_first() =~= av.skip(i + 1));
            i = i + 1;
        }
        None
    }

    /// The ancestors the index keeps for a name are its transitive ancestors,
    /// each once.
    pub proof fn lemma_ancestors(&self, n: Seq<char>)
        requires
            self.wf(),
        ensures
            self.ancestors_in(n).no_duplicates(),
            forall|a: Seq<char>| self.ancestors_in(n).contains(a) <==> is_ancestor(self.source(), n, a),
    {
        if named(self.table.source(), n) is Some {
            self.table.lemma_position(n);
            crate::table::lemma_named_name(self.table.source(), n);
            let p = self.table.position(n);
            assert(self.ancestors@[p].wf());
        } else {
            assert forall|a: Seq<char>| !is_ancestor(self.source(), n, a) by {
                lemma_no_parents_no_ancestor(self.source(), n, a);
            }
        }
    }
}

/// A public override is a public SDK method (in a public namespace) with the
/// overriding method's name and descriptor, declared by a transitive ancestor
/// of its class; and a method its class declares has one whenever such an
/// ancestor exists.
pub proof fn lemma_public_override(idx: Index, m: SpecMethodRef)
    requires
        idx.wf(),
    ensures
        idx.spec_public_override(m) matches Some(p) ==> {
            &&& is_ancestor(idx.source(), m.owner, p.owner)
            &&& p.name == m.name
            &&& p.desc == m.desc
            &&& idx.spec_is_public(p)
        },
        (idx.class_named(m.owner) matches Some(c) && has_method(c, m.name, m.desc)) && (exists|
            a: Seq<char>,
        |
            #[trigger] is_ancestor(idx.source(), m.owner, a) && idx.spec_is_public(
                SpecMethodRef { owner: a, name: m.name, desc: m.desc },
            )) ==> idx.spec_public_override(m) is Some,
{
    idx.lemma_ancestors(m.owner);
    lemma_first_public_parent(idx.public_set(), idx.ancestors_in(m.owner), m.name, m.desc);
    if idx.class_named(m.owner) is Some {
        let ancs = idx.ancestors_in(m.owner);
        if exists|a: Seq<char>|
            #[trigger] is_ancestor(idx.source(), m.owner, a) && idx.spec_is_public(
                SpecMethodRef { owner: a, name: m.name, desc: m.desc },
            ) {
            let a = choose|a: Seq<char>|
                #[trigger] is_ancestor(idx.source(), m.owner, a) && idx.spec_is_public(
                    SpecMethodRef { owner: a, name: m.name, desc: m.desc },
                );
            assert(ancs.contains(a));
        }
    }
}

/// The callers of a method are exactly the methods with a call edge to it,
/// each once.
pub proof fn lemma_callers(idx: Index, m: SpecMethodRef)
    ensures
        callers_in(idx.edges(), m).no_duplicates(),
        forall|c: SpecMethodRef|
            callers_in(idx.edges(), m).contains(c) <==> idx.edges().contains((c, m)),
{
    crate::text::lemma_dedup(callers_along(idx.edges(), m));
    assert forall|c: SpecMethodRef|
        callers_in(idx.edges(), m).contains(c) <==> idx.edges().contains((c, m)) by {
        lemma_callers_along_contains(idx.edges(), m, c);
        assert(crate::text::dedup(callers_along(idx.edges(), m)).contains(c) <==> callers_along(
            idx.edges(),
            m,
        ).contains(c));
    }
}

/// A caller is along the edges exactly when an edge runs from it to `m`.
proof fn lemma_callers_along_contains(es: Seq<Edge>, m: SpecMethodRef, c: SpecMethodRef)
    ensures
        callers_along(es, m).contains(c) <==> es.contains((c, m)),
    decreases es.len(),
{
    if es.len() > 0 {
        let r = callers_along(es.drop_last(), m);
        lemma_callers_along_contains(es.drop_last(), m, c);
        if es.drop_last().contains((c, m)) {
            let k = choose|k: int| 0 <= k < es.drop_last().len() && es.drop_last()[k] == (c, m);
            assert(es[k] == (c, m));
        }
        if es.contains((c, m)) {
            let k = choose|k: int| 0 <= k < es.len() && es[k] == (c, m);
            if k < es.len() - 1 {
                assert(es.drop_last()[k] == (c, m));
            }
        }
        if es.last().1 == m {
            let r2 = r.push(es.last().0);
            assert(r2[r.len() as int] == es.last().0);
            if r2.contains(c) {
                let k = choose|k: int| 0 <= k < r2.len() && r2[k] == c;
                if k < r.len() {
                    assert(r[k] == c);
                }
            }
            if r.contains(c) {
                let k = choose|k: int| 0 <= k < r.len() && r[k] == c;
                assert(r2[k] == c);
            }
        }
    }
}

/// A public-facing namespace: `android.*` or `com.android.*`, excluding the
/// Binder runtime and `com.android.internal`.
pub fn is_public_namespace(owner: &str) -> (b: bool)
    ensures
        b == spec_is_public_namespace(owner@),
{
    let v = chars_of(owner);
    let n = v.len();
    assert(v@.subrange(0, n as int) =~= v@);
    let android = chars_of("android/");
    let com_android = chars_of("com/android/");
    let binder = chars_of("android/os/Binder");
    let internal = chars_of("com/android/internal/");
    (starts_with_at(&v, 0, n, &android) || starts_with_at(&v, 0, n, &com_android))
        && !starts_with_at(&v, 0, n, &binder) && !starts_with_at(&v, 0, n, &internal)
}

} // verus!
