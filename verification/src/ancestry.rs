//! The class hierarchy: a class's transitive ancestors are the classes and
//! interfaces reached through superclass and interface links, never through or
//! to `java/lang/Object`.

use vstd::prelude::*;
use crate::dex::{Class, SpecClass};
use crate::table::{lemma_named_member, named, ClassTable};
use crate::text::{strings_view, UniqueStrings};

verus! {

/// `java/lang/Object`, the root that the ancestry leaves out.
pub open spec fn object_name() -> Seq<char> {
    "java/lang/Object"@
}

/// The direct parents of a class: its superclass, then its interfaces.
pub open spec fn parent_names(c: SpecClass) -> Seq<Seq<char>> {
    match c.super_name {
        Some(s) => seq![s] + c.interfaces,
        None => c.interfaces,
    }
}

/// The direct parents of the first class named `n` (none if there is none).
pub open spec fn parents_of(cs: Seq<SpecClass>, n: Seq<char>) -> Seq<Seq<char>> {
    match named(cs, n) {
        Some(c) => parent_names(c),
        None => Seq::empty(),
    }
}

/// `path` leads from `n` upwards, one parent link a step, avoiding `Object`.
pub open spec fn is_chain(cs: Seq<SpecClass>, n: Seq<char>, path: Seq<Seq<char>>) -> bool {
    &&& path.len() > 0
    &&& parents_of(cs, n).contains(path[0])
    &&& forall|i: int| 0 <= i < path.len() - 1 ==> parents_of(cs, #[trigger] path[i]).contains(path[i + 1])
    &&& forall|i: int| 0 <= i < path.len() ==> #[trigger] path[i] != object_name()
}

/// `a` is a transitive ancestor of the class named `n`.
pub open spec fn is_ancestor(cs: Seq<SpecClass>, n: Seq<char>, a: Seq<char>) -> bool {
    exists|path: Seq<Seq<char>>| #[trigger] is_chain(cs, n, path) && path.last() == a
}

/// Every parent name of every class, in order.
pub open spec fn name_pool(cs: Seq<SpecClass>) -> Seq<Seq<char>>
    decreases cs.len(),
{
    if cs.len() == 0 {
        Seq::empty()
    } else {
        name_pool(cs.drop_last()) + parent_names(cs.last())
    }
}

/// The parents of a class are in the pool.
proof fn lemma_pool_member(cs: Seq<SpecClass>, i: int, x: Seq<char>)
    requires
        0 <= i < cs.len(),
        parent_names(cs[i]).contains(x),
    ensures
        name_pool(cs).contains(x),
    decreases cs.len(),
{
    let p = name_pool(cs.drop_last());
    let q = parent_names(cs.last());
    if i < cs.len() - 1 {
        assert(cs.drop_last()[i] == cs[i]);
        lemma_pool_member(cs.drop_last(), i, x);
        let k = choose|k: int| 0 <= k < p.len() && p[k] == x;
        assert((p + q)[k] == x);
    } else {
        let k = choose|k: int| 0 <= k < q.len() && q[k] == x;
        assert((p + q)[p.len() + k] == x);
    }
}

/// The parents of any name are in the pool.
proof fn lemma_parents_in_pool(cs: Seq<SpecClass>, n: Seq<char>, x: Seq<char>)
    requires
        parents_of(cs, n).contains(x),
    ensures
        name_pool(cs).contains(x),
{
    lemma_named_member(cs, n);
    let c = named(cs, n).unwrap();
    let i = choose|i: int| 0 <= i < cs.len() && cs[i] == c;
    lemma_pool_member(cs, i, x);
}

/// A set of names closed under parent links (`Object` aside) that holds the
/// parents of `n` holds every ancestor of `n`.
proof fn lemma_closed_holds_ancestors(cs: Seq<SpecClass>, n: Seq<char>, out: Seq<Seq<char>>, a: Seq<char>)
    requires
        forall|p: Seq<char>| #[trigger] parents_of(cs, n).contains(p) ==> p == object_name() || out.contains(p),
        forall|y: Seq<char>, p: Seq<char>|
            #[trigger] out.contains(y) && #[trigger] parents_of(cs, y).contains(p) ==> p == object_name() || out.contains(p),
        is_ancestor(cs, n, a),
    ensures
        out.contains(a),
{
    let path = choose|path: Seq<Seq<char>>| #[trigger] is_chain(cs, n, path) && path.last() == a;
    lemma_chain_prefix(cs, n, out, path, path.len() - 1);
}

proof fn lemma_chain_prefix(cs: Seq<SpecClass>, n: Seq<char>, out: Seq<Seq<char>>, path: Seq<Seq<char>>, k: int)
    requires
        forall|p: Seq<char>| #[trigger] parents_of(cs, n).contains(p) ==> p == object_name() || out.contains(p),
        forall|y: Seq<char>, p: Seq<char>|
            #[trigger] out.contains(y) && #[trigger] parents_of(cs, y).contains(p) ==> p == object_name() || out.contains(p),
        is_chain(cs, n, path),
        0 <= k < path.len(),
    ensures
        out.contains(path[k]),
    decreases k,
{
    assert(path[k] != object_name());
    if k > 0 {
        lemma_chain_prefix(cs, n, out, path, k - 1);
        assert(parents_of(cs, path[k - 1]).contains(path[k]));
    }
}

/// Pushes the parents of `c`, superclass first.
fn push_parents(stack: &mut Vec<String>, c: &Class)
    ensures
        strings_view(final(stack)@) == strings_view(old(stack)@) + parent_names(c@),
{
    let ghost s0 = strings_view(stack@);
    match &c.super_name {
        Some(s) => {
            stack.push(s.clone());
        },
        None => {},
    }
    let ghost s1 = strings_view(stack@);
    let mut i: usize = 0;
    while i < c.interfaces.len()
        invariant
            i <= c.interfaces@.len(),
            strings_view(stack@) == s1 + strings_view(c.interfaces@).take(i as int),
        decreases c.interfaces.len() - i,
    {
        let ghost v = strings_view(stack@);
        stack.push(c.interfaces[i].clone());
        assert(strings_view(stack@) =~= v.push(c.interfaces@[i as int]@));
        assert(strings_view(c.interfaces@).take(i + 1) =~= strings_view(c.interfaces@).take(
            i as int,
        ).push(c.interfaces@[i as int]@));
        i = i + 1;
    }
    assert(strings_view(c.interfaces@).take(c.interfaces@.len() as int) =~= strings_view(
        c.interfaces@,
    ));
    proof {
        if c@.super_name is Some {
            let s = c@.super_name.unwrap();
            assert(s1 =~= s0.push(s));
            assert(s0.push(s) + strings_view(c.interfaces@) =~= s0 + (seq![s] + strings_view(c.interfaces@)));
        } else {
            assert(s1 =~= s0);
        }
    }
}

/// The transitive superclasses and interfaces of the first class named `name`,
/// each once, `java/lang/Object` excluded.
pub fn close_ancestors(table: &ClassTable, name: &str) -> (r: UniqueStrings)
    requires
        table.wf(),
    ensures
        r.wf(),
        r@.no_duplicates(),
        forall|a: Seq<char>| r@.contains(a) <==> is_ancestor(table.source(), name@, a),
{
    let ghost cs = table.source();
    let ghost n = name@;
    let ghost pool = name_pool(cs);
    let object = String::from_str("java/lang/Object");
    let mut out = UniqueStrings::new();
    let mut stack: Vec<String> = Vec::new();
    match table.lookup(name) {
        Some(c) => {
            push_parents(&mut stack, c);
        },
        None => {},
    }
    proof {
        assert(strings_view(stack@) =~= parents_of(cs, n)) by {
            assert(strings_view(Seq::<String>::empty()) =~= Seq::<Seq<char>>::empty());
        }
        assert forall|x: Seq<char>| strings_view(stack@).contains(x) implies pool.contains(x) by {
            lemma_parents_in_pool(cs, n, x);
        }
        vstd::seq_lib::seq_to_set_is_finite(pool);
    }
    while stack.len() > 0
        invariant
            table.wf(),
            cs == table.source(),
            n == name@,
            pool == name_pool(cs),
            object@ == object_name(),
            out.wf(),
            out@.no_duplicates(),
            out@.len() <= pool.to_set().len(),
            pool.to_set().finite(),
            forall|x: Seq<char>| out@.contains(x) ==> pool.contains(x),
            forall|x: Seq<char>| strings_view(stack@).contains(x) ==> pool.contains(x),
            forall|x: Seq<char>| #[trigger] out@.contains(x) ==> is_ancestor(cs, n, x) && x != object_name(),
            forall|x: Seq<char>|
                #[trigger] strings_view(stack@).contains(x) ==> parents_of(cs, n).contains(x) || exists|y: Seq<char>|
                    out@.contains(y) && #[trigger] parents_of(cs, y).contains(x),
            forall|p: Seq<char>|
                #[trigger] parents_of(cs, n).contains(p) ==> p == object_name() || out@.contains(p)
                    || strings_view(stack@).contains(p),
            forall|y: Seq<char>, p: Seq<char>|
                #[trigger] out@.contains(y) && #[trigger] parents_of(cs, y).contains(p) ==> p
                    == object_name() || out@.contains(p) || strings_view(stack@).contains(p),
        decreases pool.to_set().len() - out@.len(), stack.len(),
    {
        let ghost sv0 = strings_view(stack@);
        let a = stack.pop().unwrap();
        let ghost sv1 = strings_view(stack@);
        proof {
            assert(sv0 =~= sv1.push(a@));
            assert(sv0[sv0.len() - 1] == a@);
            assert forall|x: Seq<char>| sv0.contains(x) implies x == a@ || sv1.contains(x) by {
                let k = choose|k: int| 0 <= k < sv0.len() && sv0[k] == x;
                if k < sv1.len() {
                    assert(sv1[k] == x);
                }
            }
            assert forall|x: Seq<char>| sv1.contains(x) implies sv0.contains(x) by {
                let k = choose|k: int| 0 <= k < sv1.len() && sv1[k] == x;
                assert(sv0[k] == x);
            }
        }
        if a == object || out.contains(a.as_str()) {
            continue;
        }
        let ghost o0 = out@;
        proof {
            // `a` is reached: from `n` directly or from a name already reached.
            assert(sv0.contains(a@));
            if parents_of(cs, n).contains(a@) {
                let path = seq![a@];
                assert(is_chain(cs, n, path));
                assert(path.last() == a@);
            } else {
                let y = choose|y: Seq<char>| out@.contains(y) && #[trigger] parents_of(cs, y).contains(a@);
                let py = choose|path: Seq<Seq<char>>| #[trigger] is_chain(cs, n, path) && path.last() == y;
                let path = py.push(a@);
                assert(path[path.len() - 2] == y);
                assert forall|i: int| 0 <= i < path.len() - 1 implies parents_of(cs, #[trigger] path[i]).contains(path[i + 1]) by {
                    if i < py.len() - 1 {
                        assert(path[i] == py[i] && path[i + 1] == py[i + 1]);
                    }
                }
                assert forall|i: int| 0 <= i < path.len() implies #[trigger] path[i] != object_name() by {
                    if i < py.len() {
                        assert(path[i] == py[i]);
                    }
                }
                assert(is_chain(cs, n, path));
                assert(path.last() == a@);
            }
            assert(is_ancestor(cs, n, a@));
            assert(a@ != object_name());
        }
        out.add(a.clone());
        proof {
            assert(out@ =~= o0.push(a@));
            assert forall|x: Seq<char>| out@.contains(x) <==> (o0.contains(x) || x == a@) by {
                if out@.contains(x) {
                    let k = choose|k: int| 0 <= k < out@.len() && out@[k] == x;
                    if k < o0.len() {
                        assert(o0[k] == x);
                    }
                }
                if o0.contains(x) {
                    let k = choose|k: int| 0 <= k < o0.len() && o0[k] == x;
                    assert(out@[k] == x);
                }
                if x == a@ {
                    assert(out@[o0.len() as int] == x);
                }
            }
            assert(out@.no_duplicates());
            assert forall|x: Seq<char>| #[trigger] out@.contains(x) implies is_ancestor(cs, n, x) && x != object_name() by {
                if x != a@ {
                    assert(o0.contains(x));
                }
            }
            lemma_parents_in_pool_or(cs, n, a@, pool, sv0);
            out@.unique_seq_to_set();
            assert(out@.to_set().subset_of(pool.to_set()));
            vstd::set_lib::lemma_len_subset(out@.to_set(), pool.to_set());
        }
        let ghost sv2 = strings_view(stack@);
        match table.lookup(a.as_str()) {
            Some(c) => {
                push_parents(&mut stack, c);
            },
            None => {
                assert(strings_view(stack@) =~= sv2 + parents_of(cs, a@));
            },
        }
        proof {
            let sv3 = strings_view(stack@);
            assert(sv3 == sv2 + parents_of(cs, a@));
            assert forall|x: Seq<char>| sv3.contains(x) <==> (sv2.contains(x) || parents_of(cs, a@).contains(x)) by {
                let q = parents_of(cs, a@);
                if sv3.contains(x) {
                    let k = choose|k: int| 0 <= k < sv3.len() && sv3[k] == x;
                    if k < sv2.len() {
                        assert(sv2[k] == x);
                    } else {
                        assert(q[k - sv2.len()] == x);
                    }
                }
                if sv2.contains(x) {
                    let k = choose|k: int| 0 <= k < sv2.len() && sv2[k] == x;
                    assert(sv3[k] == x);
                }
                if q.contains(x) {
                    let k = choose|k: int| 0 <= k < q.len() && q[k] == x;
                    assert(sv3[sv2.len() + k] == x);
                }
            }
            assert forall|x: Seq<char>| sv3.contains(x) implies pool.contains(x) by {
                if parents_of(cs, a@).contains(x) {
                    lemma_parents_in_pool(cs, a@, x);
                }
            }
            assert forall|x: Seq<char>| #[trigger] sv3.contains(x) implies parents_of(cs, n).contains(x) || exists|y: Seq<char>|
                out@.contains(y) && #[trigger] parents_of(cs, y).contains(x) by {
                if parents_of(cs, a@).contains(x) {
                    assert(out@.contains(a@));
                } else if !parents_of(cs, n).contains(x) {
                    let y = choose|y: Seq<char>| o0.contains(y) && #[trigger] parents_of(cs, y).contains(x);
                    assert(out@.contains(y));
                }
            }
            assert forall|y: Seq<char>, p: Seq<char>|
                #[trigger] out@.contains(y) && #[trigger] parents_of(cs, y).contains(p) implies p
                    == object_name() || out@.contains(p) || sv3.contains(p) by {
                if y == a@ {
                    assert(sv3.contains(p));
                } else {
                    assert(o0.contains(y));
                    if sv0.contains(p) && p != a@ {
                        assert(sv1.contains(p));
                    }
                }
            }
        }
    }
    proof {
        assert(strings_view(stack@) =~= Seq::<Seq<char>>::empty());
        assert forall|a: Seq<char>| is_ancestor(cs, n, a) implies out@.contains(a) by {
            lemma_closed_holds_ancestors(cs, n, out@, a);
        }
    }
    out
}

/// A name with no class has no ancestor.
pub proof fn lemma_no_parents_no_ancestor(cs: Seq<SpecClass>, n: Seq<char>, a: Seq<char>)
    requires
        named(cs, n) is None,
    ensures
        !is_ancestor(cs, n, a),
{
    if is_ancestor(cs, n, a) {
        let path = choose|path: Seq<Seq<char>>| #[trigger] is_chain(cs, n, path) && path.last() == a;
        assert(parents_of(cs, n).contains(path[0]));
    }
}

/// A popped name comes from the pool.
proof fn lemma_parents_in_pool_or(cs: Seq<SpecClass>, n: Seq<char>, a: Seq<char>, pool: Seq<Seq<char>>, sv: Seq<Seq<char>>)
    requires
        sv.contains(a),
        forall|x: Seq<char>| sv.contains(x) ==> pool.contains(x),
    ensures
        pool.contains(a),
{
}

} // verus!
