//! The classes by name: the first class of a given name wins (duplicates across
//! jars are ignored for the hierarchy), and the edges of every class, duplicates
//! included, make up the call graph.

use vstd::prelude::*;
use vstd::hash_map::StringHashMap;
use crate::dex::{
    classes_view, methods_view, refs_view, Class, Method, MethodRef, SpecClass, SpecMethod,
    SpecMethodRef,
};
use crate::text::strings_view;
use crate::reverse::Edge;

verus! {

/// The first class named `n` in `cs`.
pub open spec fn named(cs: Seq<SpecClass>, n: Seq<char>) -> Option<SpecClass>
    decreases cs.len(),
{
    if cs.len() == 0 {
        None
    } else {
        match named(cs.drop_last(), n) {
            Some(c) => Some(c),
            None => if cs.last().name == n {
                Some(cs.last())
            } else {
                None
            },
        }
    }
}

/// The classes of `cs` that come first under their name, in order.
pub open spec fn first_of_names(cs: Seq<SpecClass>) -> Seq<SpecClass>
    decreases cs.len(),
{
    if cs.len() == 0 {
        Seq::empty()
    } else if named(cs.drop_last(), cs.last().name) is Some {
        first_of_names(cs.drop_last())
    } else {
        first_of_names(cs.drop_last()).push(cs.last())
    }
}

/// The reference to method `m` of class `c`.
pub open spec fn method_ref_of(c: SpecClass, m: SpecMethod) -> SpecMethodRef {
    SpecMethodRef { owner: c.name, name: m.name, desc: m.desc }
}

/// The edges from `caller` to each of `callees`, in order.
pub open spec fn invoke_edges(caller: SpecMethodRef, callees: Seq<SpecMethodRef>) -> Seq<Edge> {
    callees.map_values(|t: SpecMethodRef| (caller, t))
}

/// The edges of the methods `ms` of class `c`, in order.
pub open spec fn method_edges(c: SpecClass, ms: Seq<SpecMethod>) -> Seq<Edge>
    decreases ms.len(),
{
    if ms.len() == 0 {
        Seq::empty()
    } else {
        method_edges(c, ms.drop_last()) + invoke_edges(method_ref_of(c, ms.last()), ms.last().invokes)
    }
}

/// The call edges of all classes, in order: class by class, method by method,
/// invoke by invoke.
pub open spec fn spec_edges(cs: Seq<SpecClass>) -> Seq<Edge>
    decreases cs.len(),
{
    if cs.len() == 0 {
        Seq::empty()
    } else {
        spec_edges(cs.drop_last()) + method_edges(cs.last(), cs.last().methods)
    }
}

/// `named` on one more class.
pub proof fn lemma_named_push(cs: Seq<SpecClass>, c: SpecClass, n: Seq<char>)
    ensures
        named(cs.push(c), n) == (match named(cs, n) {
            Some(x) => Some(x),
            None => if c.name == n {
                Some(c)
            } else {
                None
            },
        }),
{
    assert(cs.push(c).drop_last() =~= cs);
}

/// A class that `named` gives has that name.
pub proof fn lemma_named_name(cs: Seq<SpecClass>, n: Seq<char>)
    ensures
        named(cs, n) matches Some(c) ==> c.name == n,
    decreases cs.len(),
{
    if cs.len() > 0 {
        lemma_named_name(cs.drop_last(), n);
    }
}

/// A class that `named` gives is one of `cs`.
pub proof fn lemma_named_member(cs: Seq<SpecClass>, n: Seq<char>)
    ensures
        named(cs, n) matches Some(c) ==> exists|i: int| 0 <= i < cs.len() && cs[i] == c,
    decreases cs.len(),
{
    if cs.len() > 0 {
        lemma_named_member(cs.drop_last(), n);
        if let Some(c) = named(cs.drop_last(), n) {
            let i = choose|i: int| 0 <= i < cs.drop_last().len() && cs.drop_last()[i] == c;
            assert(cs[i] == c);
        } else if cs.last().name == n {
            assert(cs[cs.len() - 1] == cs.last());
        }
    }
}

impl Method {
    /// A deep copy of this method.
    pub fn duplicate(&self) -> (r: Method)
        ensures
            r@ == self@,
    {
        let mut invokes: Vec<MethodRef> = Vec::new();
        let mut i: usize = 0;
        while i < self.invokes.len()
            invariant
                i <= self.invokes@.len(),
                refs_view(invokes@) == refs_view(self.invokes@).take(i as int),
            decreases self.invokes.len() - i,
        {
            let ghost v0 = invokes@;
            invokes.push(self.invokes[i].duplicate());
            assert(refs_view(invokes@) =~= refs_view(v0).push(self.invokes@[i as int]@));
            assert(refs_view(self.invokes@).take(i + 1) =~= refs_view(self.invokes@).take(
                i as int,
            ).push(self.invokes@[i as int]@));
            i = i + 1;
        }
        assert(refs_view(self.invokes@).take(self.invokes@.len() as int) =~= refs_view(
            self.invokes@,
        ));
        Method { name: self.name.clone(), desc: self.desc.clone(), invokes }
    }
}

impl Class {
    /// A deep copy of this class.
    pub fn duplicate(&self) -> (r: Class)
        ensures
            r@ == self@,
    {
        let mut interfaces: Vec<String> = Vec::new();
        let mut i: usize = 0;
        while i < self.interfaces.len()
            invariant
                i <= self.interfaces@.len(),
                strings_view(interfaces@) == strings_view(self.interfaces@).take(i as int),
            decreases self.interfaces.len() - i,
        {
            let ghost v0 = interfaces@;
            interfaces.push(self.interfaces[i].clone());
            assert(strings_view(interfaces@) =~= strings_view(v0).push(self.interfaces@[i as int]@));
            assert(strings_view(self.interfaces@).take(i + 1) =~= strings_view(
                self.interfaces@,
            ).take(i as int).push(self.interfaces@[i as int]@));
            i = i + 1;
        }
        assert(strings_view(self.interfaces@).take(self.interfaces@.len() as int) =~= strings_view(
            self.interfaces@,
        ));
        let mut methods: Vec<Method> = Vec::new();
        let mut j: usize = 0;
        while j < self.methods.len()
            invariant
                j <= self.methods@.len(),
                methods_view(methods@) == methods_view(self.methods@).take(j as int),
            decreases self.methods.len() - j,
        {
            let ghost v0 = methods@;
            methods.push(self.methods[j].duplicate());
            assert(methods_view(methods@) =~= methods_view(v0).push(self.methods@[j as int]@));
            assert(methods_view(self.methods@).take(j + 1) =~= methods_view(self.methods@).take(
                j as int,
            ).push(self.methods@[j as int]@));
            j = j + 1;
        }
        assert(methods_view(self.methods@).take(self.methods@.len() as int) =~= methods_view(
            self.methods@,
        ));
        let super_name = match &self.super_name {
            Some(s) => Some(s.clone()),
            None => None,
        };
        Class {
            name: self.name.clone(),
            super_name,
            interfaces,
            access: self.access,
            methods,
            jar: self.jar.clone(),
        }
    }
}

/// The classes by name, first of each name.
pub struct ClassTable {
    classes: Vec<Class>,
    by_name: StringHashMap<usize>,
    src: Ghost<Seq<SpecClass>>,
}

impl ClassTable {
    /// The classes the table was built from, duplicates included.
    pub closed spec fn source(&self) -> Seq<SpecClass> {
        self.src@
    }

    /// The classes the table holds: the first of each name, in order.
    pub closed spec fn held(&self) -> Seq<SpecClass> {
        classes_view(self.classes@)
    }

    /// The internal invariant.
    pub closed spec fn wf(&self) -> bool {
        &&& classes_view(self.classes@) == first_of_names(self.src@)
        &&& forall|n: Seq<char>| #[trigger] self.by_name@.contains_key(n) <==> named(self.src@, n) is Some
        &&& forall|n: Seq<char>|
            #[trigger] self.by_name@.contains_key(n) ==> self.by_name@[n] < self.classes@.len()
                && Some(self.classes@[self.by_name@[n] as int]@) == named(self.src@, n)
    }

    /// The table of `classes`.
    pub fn new(classes: &Vec<Class>) -> (r: ClassTable)
        ensures
            r.wf(),
            r.source() == classes_view(classes@),
    {
        let ghost cs = classes_view(classes@);
        let mut t = ClassTable {
            classes: Vec::new(),
            by_name: StringHashMap::new(),
            src: Ghost(Seq::empty()),
        };
        assert(classes_view(t.classes@) =~= Seq::<SpecClass>::empty());
        assert(cs.take(0) =~= Seq::<SpecClass>::empty());
        let mut i: usize = 0;
        while i < classes.len()
            invariant
                i <= classes@.len(),
                cs == classes_view(classes@),
                t.src@ == cs.take(i as int),
                t.wf(),
            decreases classes.len() - i,
        {
            let c = &classes[i];
            let ghost s0 = t.src@;
            let ghost v0 = classes_view(t.classes@);
            let ghost m0 = t.by_name@;
            proof {
                assert(cs.take(i + 1) =~= s0.push(c@));
                assert(cs.take(i + 1).drop_last() =~= s0);
                assert(cs.take(i + 1).last() == c@);
                assert forall|n: Seq<char>| #[trigger] named(cs.take(i + 1), n) == (match named(s0, n) {
                    Some(x) => Some(x),
                    None => if c@.name == n { Some(c@) } else { None },
                }) by {
                    lemma_named_push(s0, c@, n);
                }
            }
            if !t.by_name.contains_key(c.name.as_str()) {
                let pos = t.classes.len();
                t.classes.push(c.duplicate());
                t.by_name.insert(c.name.clone(), pos);
                proof {
                    assert(classes_view(t.classes@) =~= v0.push(c@));
                    assert forall|n: Seq<char>| #[trigger] t.by_name@.contains_key(n) implies t.by_name@[n] < t.classes@.len()
                        && Some(t.classes@[t.by_name@[n] as int]@) == named(cs.take(i + 1), n) by {
                        if n != c@.name {
                            assert(m0.contains_key(n));
                        }
                    }
                }
            }
            t.src = Ghost(cs.take(i + 1));
            i = i + 1;
        }
        assert(cs.take(classes@.len() as int) =~= cs);
        t
    }

    /// The first class named `name`.
    pub fn lookup(&self, name: &str) -> (r: Option<&Class>)
        requires
            self.wf(),
        ensures
            match r {
                Some(c) => named(self.source(), name@) == Some(c@),
                None => named(self.source(), name@) is None,
            },
    {
        match self.by_name.get(name) {
            Some(p) => Some(&self.classes[*p]),
            None => None,
        }
    }

    /// The classes held are the first of each name.
    pub proof fn lemma_held(&self)
        requires
            self.wf(),
        ensures
            self.held() == first_of_names(self.source()),
    {
    }

    /// Where the class named `n` is held.
    pub closed spec fn position(&self, n: Seq<char>) -> int {
        self.by_name@[n] as int
    }

    /// The class named `n`, if any, is held at `position(n)`.
    pub proof fn lemma_position(&self, n: Seq<char>)
        requires
            self.wf(),
            named(self.source(), n) is Some,
        ensures
            0 <= self.position(n) < self.held().len(),
            self.held()[self.position(n)] == named(self.source(), n).unwrap(),
    {
        assert(self.by_name@.contains_key(n));
    }

    /// The position of the first class named `name`.
    pub fn lookup_pos(&self, name: &str) -> (r: Option<usize>)
        requires
            self.wf(),
        ensures
            match r {
                Some(p) => named(self.source(), name@) is Some && p == self.position(name@) && p
                    < self.held().len(),
                None => named(self.source(), name@) is None,
            },
    {
        match self.by_name.get(name) {
            Some(p) => Some(*p),
            None => None,
        }
    }

    /// The number of classes held.
    pub fn len(&self) -> (n: usize)
        requires
            self.wf(),
        ensures
            n == self.held().len(),
    {
        self.classes.len()
    }

    /// The `i`-th class held.
    pub fn get(&self, i: usize) -> (c: &Class)
        requires
            self.wf(),
            i < self.held().len(),
        ensures
            c@ == self.held()[i as int],
    {
        &self.classes[i]
    }
}

} // verus!
