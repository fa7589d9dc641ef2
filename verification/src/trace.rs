//! Reverse breadth-first trace: from an AIDL method, walk the reverse call
//! graph outward until a public SDK method is reached, recording the call
//! chain.
//!
//! The walk is modelled step by step (`walk`): each step takes the next node,
//! from the front of the queue if an enclosing-class node waits there, else
//! from its back, and visits it. A node's callers are one hop further and go
//! to the back; the bridge from an inner class to its enclosing class costs no
//! hop and goes to the front, so nodes are taken in order of their hops.

use vstd::prelude::*;
use vstd::hash_set::StringHashSet;
use crate::dex::{refs_view, spec_fqn, spec_signature, MethodRef, SpecMethodRef};
use crate::graph::{is_public_namespace, spec_is_public_namespace, Index};
use crate::reverse::{callers_along, callers_in, Edge};
use crate::dex::SpecClass;
use crate::graph::ctor_callers;
use crate::table::{lemma_named_member, lemma_named_name};
use crate::text::{
    append_str, chars_of, decimal, decimal_string, ends_with, ends_with_at, find_pat,
    find_pat_at, push_char, repeat, replace_char, replace_char_at, rfind_char, rfind_char_at,
    string_of,
};

verus! {

/// Search is bounded to this many hops.
pub const MAX_HOPS: usize = 50;

/// One AIDL-method to public-API mapping.
#[derive(Debug, Clone)]
pub struct Mapping {
    pub aidl: String,
    pub public_class: String,
    pub method: String,
    pub desc: String,
    pub hops: usize,
    pub jar: String,
}

/// What a [`Mapping`] denotes.
pub struct SpecMapping {
    pub aidl: Seq<char>,
    pub public_class: Seq<char>,
    pub method: Seq<char>,
    pub desc: Seq<char>,
    pub hops: usize,
    pub jar: Seq<char>,
}

impl View for Mapping {
    type V = SpecMapping;

    open spec fn view(&self) -> SpecMapping {
        SpecMapping {
            aidl: self.aidl@,
            public_class: self.public_class@,
            method: self.method@,
            desc: self.desc@,
            hops: self.hops,
            jar: self.jar@,
        }
    }
}

/// The views of a sequence of mappings.
pub open spec fn mappings_view(s: Seq<Mapping>) -> Seq<SpecMapping> {
    s.map_values(|m: Mapping| m@)
}

/// The result of tracing one AIDL method.
pub struct Trace {
    pub mappings: Vec<Mapping>,
    /// the call chain (public -> AIDL), rendered for the debug report.
    pub path: String,
    pub mapped: bool,
}

/// A node of the walk: a method, its hop count, and the node that queued it.
pub struct SpecNode {
    pub sig: SpecMethodRef,
    pub hops: int,
    pub parent: Option<int>,
}

/// Server-side binder stub (`$Stub`, but not the client `$Stub$Proxy`): its
/// `onTransact` dispatch traces back through the binder runtime into generic
/// hits.
pub open spec fn spec_is_server_stub(owner: Seq<char>) -> bool {
    ends_with(owner, "$Stub"@) || (find_pat(owner, "$Stub$"@) is Some && find_pat(
        owner,
        "$Stub$Proxy"@,
    ) is None)
}

/// The enclosing class of an inner class. D8 synthetic classes use a `$$`
/// marker (`com/x/Outer$$ExternalSyntheticLambda0`) whose enclosing type is the
/// part before its first occurrence; ordinary nesting (`com/x/Outer$Inner`)
/// splits on the last `$`.
pub open spec fn spec_enclosing(owner: Seq<char>) -> Option<Seq<char>> {
    match find_pat(owner, "$$"@) {
        Some(i) => Some(owner.take(i)),
        None => match rfind_char(owner, '$') {
            Some(j) => Some(owner.take(j)),
            None => None,
        },
    }
}

/// Nodes for the callers `cs` (server stubs skipped) at `hops`, queued by `parent`.
pub open spec fn caller_nodes(cs: Seq<SpecMethodRef>, hops: int, parent: int) -> Seq<SpecNode>
    decreases cs.len(),
{
    if cs.len() == 0 {
        Seq::empty()
    } else if spec_is_server_stub(cs.last().owner) {
        caller_nodes(cs.drop_last(), hops, parent)
    } else {
        caller_nodes(cs.drop_last(), hops, parent).push(
            SpecNode { sig: cs.last(), hops, parent: Some(parent) },
        )
    }
}

/// The construction sites that a lambda's method bridges to: when its class is
/// synthetic and the method has no direct callers, the callers of the class's
/// constructors, one hop further.
pub open spec fn lambda_nodes(idx: Index, n: SpecNode, i: int) -> Seq<SpecNode> {
    if idx.spec_is_synthetic(n.sig.owner) && callers_along(idx.edges(), n.sig).len() == 0 {
        caller_nodes(idx.spec_constructor_callers(n.sig.owner), n.hops + 1, i)
    } else {
        Seq::empty()
    }
}

/// The bridge from an inner class to the same method of its enclosing class,
/// at no hop cost, when the enclosing class was loaded.
pub open spec fn enclosing_nodes(idx: Index, n: SpecNode, i: int) -> Seq<SpecNode> {
    match spec_enclosing(n.sig.owner) {
        Some(outer) => if idx.class_named(outer) is Some {
            seq![
                SpecNode {
                    sig: SpecMethodRef { owner: outer, name: n.sig.name, desc: n.sig.desc },
                    hops: n.hops,
                    parent: Some(i),
                },
            ]
        } else {
            Seq::empty()
        },
        None => Seq::empty(),
    }
}

/// The node the walk starts from.
pub open spec fn start_node(start: SpecMethodRef) -> SpecNode {
    SpecNode { sig: start, hops: 0, parent: None }
}

/// The mapping for a direct hit at node `i`.
pub open spec fn direct_mapping(idx: Index, start: SpecMethodRef, n: SpecNode) -> SpecMapping {
    SpecMapping {
        aidl: spec_fqn(start),
        public_class: replace_char(n.sig.owner, '/', '.'),
        method: n.sig.name,
        desc: n.sig.desc,
        hops: n.hops as usize,
        jar: idx.spec_jar(n.sig.owner),
    }
}

/// The mapping for an override hit at node `i`, to the overridden `p`.
pub open spec fn override_mapping(idx: Index, start: SpecMethodRef, n: SpecNode, p: SpecMethodRef) -> SpecMapping {
    SpecMapping {
        aidl: spec_fqn(start),
        public_class: replace_char(p.owner, '/', '.'),
        method: p.name,
        desc: p.desc,
        hops: n.hops as usize,
        jar: idx.spec_jar(n.sig.owner),
    }
}

/// The nodes from the start down to node `i`, following parents.
pub open spec fn chain(arena: Seq<SpecNode>, i: int) -> Seq<int>
    decreases i,
{
    match arena[i].parent {
        Some(p) => if 0 <= p < i {
            chain(arena, p).push(i)
        } else {
            seq![i]
        },
        None => seq![i],
    }
}

/// ` [jar]` for a known jar, nothing for `UNKNOWN`.
pub open spec fn jar_tag(idx: Index, owner: Seq<char>) -> Seq<char> {
    let jar = idx.spec_jar(owner);
    if jar == "UNKNOWN"@ {
        Seq::empty()
    } else {
        " ["@ + jar + "]"@
    }
}

/// Step `k` of a rendered chain: indented two spaces per step.
pub open spec fn path_line(idx: Index, k: nat, n: SpecNode) -> Seq<char> {
    repeat("  "@, k) + "      "@ + decimal(k) + ". "@ + spec_fqn(n.sig) + jar_tag(idx, n.sig.owner)
        + "\n"@
}

/// The first `k` steps of the chain `ch`, rendered.
pub open spec fn render_steps(idx: Index, arena: Seq<SpecNode>, ch: Seq<int>, k: int) -> Seq<char>
    decreases k,
{
    if k <= 0 {
        Seq::empty()
    } else {
        render_steps(idx, arena, ch, k - 1) + path_line(idx, (k - 1) as nat, arena[ch[k - 1]])
    }
}

/// The call chain from the start down to node `i`, one indented step per hop,
/// in the debug-log format.
pub open spec fn render_path(idx: Index, arena: Seq<SpecNode>, i: int) -> Seq<char> {
    let ch = chain(arena, i);
    render_steps(idx, arena, ch, ch.len() as int)
}

/// The walk between two steps: every node queued so far (`arena`, in the
/// order queued; each node names the node that queued it), the
/// enclosing-class node waiting at the front of the queue, the nodes waiting
/// at its back (`queue` from `head` on), the signatures already seen, and what
/// the walk has reported so far.
pub struct WalkState {
    pub arena: Seq<SpecNode>,
    pub front: Option<int>,
    pub queue: Seq<int>,
    pub head: int,
    pub visited: Set<Seq<char>>,
    pub mappings: Seq<SpecMapping>,
    pub first_path: Option<Seq<char>>,
    pub deepest: int,
}

/// The walk before its first step: the start, queued.
pub open spec fn initial_walk(start: SpecMethodRef) -> WalkState {
    WalkState {
        arena: seq![start_node(start)],
        front: None,
        queue: seq![0int],
        head: 0,
        visited: Set::empty(),
        mappings: Seq::empty(),
        first_path: None,
        deepest: 0,
    }
}

/// Nothing is left to take.
pub open spec fn walk_done(s: WalkState) -> bool {
    s.front is None && s.head >= s.queue.len()
}

/// The next node to take: the one at the front, else the next at the back.
pub open spec fn take_next(s: WalkState) -> (int, WalkState) {
    match s.front {
        Some(f) => (f, WalkState { front: None, ..s }),
        None => (s.queue[s.head], WalkState { head: s.head + 1, ..s }),
    }
}

/// The nodes that node `i` (holding `n`) queues at the back, one hop further:
/// its callers, then, for a lambda, its construction sites.
pub open spec fn back_nodes(idx: Index, n: SpecNode, i: int) -> Seq<SpecNode> {
    caller_nodes(callers_in(idx.edges(), n.sig), n.hops + 1, i) + lambda_nodes(idx, n, i)
}

/// The `count` arena positions from `from` on.
pub open spec fn positions(from: int, count: int) -> Seq<int> {
    Seq::new(count as nat, |k: int| from + k)
}

/// Node `i` queues its children: the back nodes at the back, and the
/// enclosing-class node, at no hop cost, at the front, so that the walk takes
/// the nodes in order of their hops.
pub open spec fn expand(idx: Index, s: WalkState, i: int) -> WalkState {
    let n = s.arena[i];
    let back = back_nodes(idx, n, i);
    let en = enclosing_nodes(idx, n, i);
    let a1 = s.arena + back;
    WalkState {
        arena: a1 + en,
        queue: s.queue + positions(s.arena.len() as int, back.len() as int),
        front: if en.len() > 0 {
            Some(a1.len() as int)
        } else {
            None
        },
        ..s
    }
}

/// Node `i` overrides a public-API method in a public namespace.
pub open spec fn override_hit(idx: Index, n: SpecNode) -> bool {
    match idx.spec_public_override(n.sig) {
        Some(p) => spec_is_public_namespace(p.owner),
        None => false,
    }
}

/// The walk takes node `i`: a signature already seen, or past the hop bound,
/// is passed over; otherwise its mappings are recorded (the method itself
/// public, then the public method it overrides), the first one's chain kept
/// for the debug log, and, unless it is a hit and only the first hit of each
/// branch is wanted, its children are queued.
pub open spec fn visit(idx: Index, start: SpecMethodRef, all_paths: bool, s: WalkState, i: int) -> WalkState {
    let n = s.arena[i];
    let key = spec_signature(n.sig);
    if s.visited.contains(key) {
        s
    } else if n.hops > MAX_HOPS {
        WalkState { visited: s.visited.insert(key), ..s }
    } else {
        let direct = idx.spec_is_public(n.sig);
        let over = override_hit(idx, n);
        let p = idx.spec_public_override(n.sig).unwrap();
        let d = if direct {
            seq![direct_mapping(idx, start, n)]
        } else {
            Seq::empty()
        };
        let o = if over {
            seq![override_mapping(idx, start, n, p)]
        } else {
            Seq::empty()
        };
        let fp = match s.first_path {
            Some(x) => Some(x),
            None => if direct {
                Some(render_path(idx, s.arena, i))
            } else if over {
                Some(render_path(idx, s.arena, i) + "      -> [VIRTUAL] "@ + spec_fqn(p) + "\n"@)
            } else {
                None
            },
        };
        let s1 = WalkState {
            visited: s.visited.insert(key),
            deepest: if n.hops >= s.arena[s.deepest].hops {
                i
            } else {
                s.deepest
            },
            mappings: s.mappings + d + o,
            first_path: fp,
            ..s
        };
        if (direct || over) && !all_paths {
            s1
        } else {
            expand(idx, s1, i)
        }
    }
}

/// One step of the walk: take the next node and visit it.
pub open spec fn walk_step(idx: Index, start: SpecMethodRef, all_paths: bool, s: WalkState) -> WalkState {
    if walk_done(s) {
        s
    } else {
        let (i, t) = take_next(s);
        visit(idx, start, all_paths, t, i)
    }
}

/// The walk from `start` after `k` steps.
pub open spec fn walk(idx: Index, start: SpecMethodRef, all_paths: bool, k: nat) -> WalkState
    decreases k,
{
    if k == 0 {
        initial_walk(start)
    } else {
        walk_step(idx, start, all_paths, walk(idx, start, all_paths, (k - 1) as nat))
    }
}

/// What a finished walk reports: its mappings in the order found; the chain
/// of the first hit, or, when nothing maps, of the deepest node taken, marked
/// a dead end; and whether anything maps.
pub open spec fn walk_outcome(idx: Index, s: WalkState) -> (Seq<SpecMapping>, Seq<char>, bool) {
    let mapped = s.mappings.len() > 0;
    let path = if mapped {
        match s.first_path {
            Some(p) => p,
            None => Seq::empty(),
        }
    } else {
        render_path(idx, s.arena, s.deepest) + "      [DEAD_END]\n"@
    };
    (s.mappings, path, mapped)
}

/// Server-side binder stub (`$Stub`, but not the client `$Stub$Proxy`).
pub fn is_server_stub(owner: &str) -> (b: bool)
    ensures
        b == spec_is_server_stub(owner@),
{
    let v = chars_of(owner);
    let n = v.len();
    assert(v@.subrange(0, n as int) =~= v@);
    let stub = chars_of("$Stub");
    let stub_inner = chars_of("$Stub$");
    let proxy = chars_of("$Stub$Proxy");
    ends_with_at(&v, 0, n, &stub) || (find_pat_at(&v, 0, n, &stub_inner).is_some() && find_pat_at(
        &v,
        0,
        n,
        &proxy,
    ).is_none())
}

/// The enclosing class of an inner class: the part before the first `$$`
/// (D8 synthetic classes), else before the last `$`; `None` for a top-level
/// class.
pub fn enclosing(owner: &str) -> (r: Option<String>)
    ensures
        match r {
            Some(o) => spec_enclosing(owner@) == Some(o@),
            None => spec_enclosing(owner@) is None,
        },
{
    let v = chars_of(owner);
    let n = v.len();
    assert(v@.subrange(0, n as int) =~= v@);
    let marker = chars_of("$$");
    match find_pat_at(&v, 0, n, &marker) {
        Some(i) => {
            assert(v@.take(i as int) =~= v@.subrange(0, i as int));
            Some(string_of(&v, 0, i))
        },
        None => match rfind_char_at(&v, 0, n, '$') {
            Some(j) => {
                assert(v@.take(j as int) =~= v@.subrange(0, j as int));
                Some(string_of(&v, 0, j))
            },
            None => None,
        },
    }
}

/// A node of the walk.
struct Node {
    sig: MethodRef,
    hops: usize,
    parent: Option<usize>,
}

impl View for Node {
    type V = SpecNode;

    closed spec fn view(&self) -> SpecNode {
        SpecNode {
            sig: self.sig@,
            hops: self.hops as int,
            parent: match self.parent {
                Some(p) => Some(p as int),
                None => None,
            },
        }
    }
}

/// The views of the nodes.
spec fn nodes_view(s: Seq<Node>) -> Seq<SpecNode> {
    s.map_values(|n: Node| n@)
}

/// `s` repeated `n` times.
fn repeat_str(s: &str, n: usize) -> (r: String)
    ensures
        r@ == repeat(s@, n as nat),
{
    let mut r = String::new();
    let mut i: usize = 0;
    while i < n
        invariant
            i <= n,
            r@ == repeat(s@, i as nat),
        decreases n - i,
    {
        append_str(&mut r, s);
        i = i + 1;
    }
    r
}

/// Rendering more steps leaves the earlier ones as they were.
proof fn lemma_render_steps_prefix(idx: Index, arena: Seq<SpecNode>, ch: Seq<int>, x: int, k: int)
    requires
        0 <= k <= ch.len(),
    ensures
        render_steps(idx, arena, ch.push(x), k) == render_steps(idx, arena, ch, k),
    decreases k,
{
    if k > 0 {
        lemma_render_steps_prefix(idx, arena, ch, x, k - 1);
        assert(ch.push(x)[k - 1] == ch[k - 1]);
    }
}

/// Step `k` of a rendered chain, for node `n`.
fn path_line_exec(idx: &Index, k: usize, n: &Node) -> (r: String)
    requires
        idx.wf(),
    ensures
        r@ == path_line(*idx, k as nat, n@),
{
    let mut s = repeat_str("  ", k);
    append_str(&mut s, "      ");
    let d = decimal_string(k);
    append_str(&mut s, d.as_str());
    append_str(&mut s, ". ");
    let f = n.sig.fqn();
    append_str(&mut s, f.as_str());
    let jar = String::from_str(idx.jar(n.sig.owner.as_str()));
    let unknown = String::from_str("UNKNOWN");
    if jar != unknown {
        append_str(&mut s, " [");
        append_str(&mut s, jar.as_str());
        append_str(&mut s, "]");
    } else {
        assert(" ["@ + jar@ + "]"@ == jar_tag(*idx, n.sig@.owner) || jar_tag(*idx, n.sig@.owner) =~= Seq::<char>::empty());
    }
    append_str(&mut s, "\n");
    proof {
        if jar@ == "UNKNOWN"@ {
            assert(s@ =~= repeat("  "@, k as nat) + "      "@ + decimal(k as nat) + ". "@ + spec_fqn(n.sig@) + Seq::<char>::empty() + "\n"@);
        } else {
            assert(s@ =~= repeat("  "@, k as nat) + "      "@ + decimal(k as nat) + ". "@ + spec_fqn(n.sig@) + (" ["@ + jar@ + "]"@) + "\n"@);
        }
    }
    s
}

/// The rendered chain down to node `i`, and its number of steps.
fn render_chain(idx: &Index, arena: &Vec<Node>, i: usize) -> (r: (String, usize))
    requires
        idx.wf(),
        i < arena@.len(),
    ensures
        r.1 == chain(nodes_view(arena@), i as int).len(),
        1 <= r.1 <= i + 1,
        r.0@ == render_steps(*idx, nodes_view(arena@), chain(nodes_view(arena@), i as int), r.1 as int),
    decreases i,
{
    let ghost av = nodes_view(arena@);
    let n = arena.len();
    assert(i < n);
    assert(av[i as int] == arena@[i as int]@);
    match arena[i].parent {
        Some(p) => {
            if p < i {
                let (mut s, k) = render_chain(idx, arena, p);
                let line = path_line_exec(idx, k, &arena[i]);
                append_str(&mut s, line.as_str());
                proof {
                    let ch = chain(av, p as int);
                    assert(chain(av, i as int) == ch.push(i as int));
                    lemma_render_steps_prefix(*idx, av, ch, i as int, k as int);
                    assert(ch.push(i as int)[k as int] == i as int);
                }
                return (s, k + 1);
            }
        },
        None => {},
    }
    let line = path_line_exec(idx, 0, &arena[i]);
    proof {
        let ch = chain(av, i as int);
        assert(ch == seq![i as int]);
        assert(render_steps(*idx, av, ch, 0) =~= Seq::<char>::empty());
        assert(render_steps(*idx, av, ch, 1) =~= path_line(*idx, 0, av[i as int]));
    }
    (line, 1)
}

/// The call chain from the start down to node `i`, rendered.
fn render_path_exec(idx: &Index, arena: &Vec<Node>, i: usize) -> (r: String)
    requires
        idx.wf(),
        i < arena@.len(),
    ensures
        r@ == render_path(*idx, nodes_view(arena@), i as int),
{
    let (s, _) = render_chain(idx, arena, i);
    s
}

/// Queues a node for each of the callers `cs` that is not a server stub.
fn push_caller_nodes(arena: &mut Vec<Node>, cs: &Vec<MethodRef>, hops: usize, parent: usize)
    ensures
        nodes_view(final(arena)@) == nodes_view(old(arena)@) + caller_nodes(
            refs_view(cs@),
            hops as int,
            parent as int,
        ),
{
    let ghost a0 = nodes_view(arena@);
    let mut k: usize = 0;
    assert(refs_view(cs@).take(0) =~= Seq::<SpecMethodRef>::empty());
    assert(a0 + caller_nodes(refs_view(cs@).take(0), hops as int, parent as int) =~= a0);
    while k < cs.len()
        invariant
            k <= cs@.len(),
            nodes_view(arena@) == a0 + caller_nodes(
                refs_view(cs@).take(k as int),
                hops as int,
                parent as int,
            ),
        decreases cs.len() - k,
    {
        let c = &cs[k];
        let ghost before = nodes_view(arena@);
        proof {
            assert(refs_view(cs@).take(k + 1).drop_last() =~= refs_view(cs@).take(k as int));
            assert(refs_view(cs@).take(k + 1).last() == c@);
        }
        if !is_server_stub(c.owner.as_str()) {
            arena.push(Node { sig: c.duplicate(), hops, parent: Some(parent) });
            assert(nodes_view(arena@) =~= before.push(
                SpecNode { sig: c@, hops: hops as int, parent: Some(parent as int) },
            ));
        }
        k = k + 1;
    }
    assert(refs_view(cs@).take(cs@.len() as int) =~= refs_view(cs@));
}

/// The positions held in a queue, as integers.
spec fn queue_view(q: Seq<usize>) -> Seq<int> {
    q.map_values(|x: usize| x as int)
}

/// Queues the children of the node `ni` (method `sig` at `hops`): the back
/// nodes at the back, the enclosing-class node at the front.
fn expand_node(
    idx: &Index,
    arena: &mut Vec<Node>,
    queue: &mut Vec<usize>,
    front: &mut Option<usize>,
    ni: usize,
    sig: &MethodRef,
    hops: usize,
)
    requires
        idx.wf(),
        ni < old(arena)@.len(),
        nodes_view(old(arena)@)[ni as int].sig == sig@,
        nodes_view(old(arena)@)[ni as int].hops == hops as int,
        hops <= MAX_HOPS,
    ensures
        ({
            let n = nodes_view(old(arena)@)[ni as int];
            let back = back_nodes(*idx, n, ni as int);
            let en = enclosing_nodes(*idx, n, ni as int);
            &&& nodes_view(final(arena)@) == nodes_view(old(arena)@) + back + en
            &&& queue_view(final(queue)@) == queue_view(old(queue)@) + positions(
                old(arena)@.len() as int,
                back.len() as int,
            )
            &&& *final(front) == (if en.len() > 0 {
                Some((old(arena)@.len() + back.len()) as usize)
            } else {
                None::<usize>
            })
        }),
{
    let ghost a0 = nodes_view(arena@);
    let ghost q0 = queue_view(queue@);
    let ghost n = a0[ni as int];
    let start_len = arena.len();
    // Callers of this method (server-side $Stub dispatch skipped).
    match idx.callers(sig) {
        Some(callers) => {
            push_caller_nodes(arena, callers, hops + 1, ni);
        },
        None => {
            proof {
                let al = callers_along(idx.edges(), sig@);
                assert(al =~= Seq::<SpecMethodRef>::empty());
                assert(crate::text::dedup(al) =~= Seq::<SpecMethodRef>::empty());
                assert(caller_nodes(Seq::<SpecMethodRef>::empty(), hops + 1, ni as int) =~= Seq::<SpecNode>::empty());
                assert(nodes_view(arena@) =~= a0 + Seq::<SpecNode>::empty());
            }
        },
    }
    let ghost a1 = nodes_view(arena@);
    // A desugared lambda with no direct callers: its construction sites.
    if idx.is_synthetic(sig.owner.as_str()) && !idx.has_callers(sig) {
        let sites = idx.constructor_callers(sig.owner.as_str());
        push_caller_nodes(arena, &sites, hops + 1, ni);
    } else {
        assert(nodes_view(arena@) =~= a1 + Seq::<SpecNode>::empty());
    }
    let ghost back = back_nodes(*idx, n, ni as int);
    assert(nodes_view(arena@) =~= a0 + back);
    // Queue the back nodes.
    let end = arena.len();
    let mut j = start_len;
    assert(queue_view(queue@) =~= q0 + positions(start_len as int, 0));
    while j < end
        invariant
            start_len <= j <= end,
            start_len == a0.len(),
            queue_view(queue@) == q0 + positions(start_len as int, (j - start_len) as int),
        decreases end - j,
    {
        let ghost qv = queue_view(queue@);
        queue.push(j);
        assert(queue_view(queue@) =~= qv.push(j as int));
        assert(positions(start_len as int, (j + 1 - start_len) as int) =~= positions(
            start_len as int,
            (j - start_len) as int,
        ).push(j as int));
        j = j + 1;
    }
    // The enclosing class, at no hop cost, at the front.
    match enclosing(sig.owner.as_str()) {
        Some(outer) => {
            if idx.has_class(outer.as_str()) {
                let outer_sig = MethodRef { owner: outer, name: sig.name.clone(), desc: sig.desc.clone() };
                let pos = arena.len();
                arena.push(Node { sig: outer_sig, hops, parent: Some(ni) });
                *front = Some(pos);
                assert(nodes_view(arena@) =~= a0 + back + enclosing_nodes(*idx, n, ni as int));
            } else {
                *front = None;
                assert(nodes_view(arena@) =~= a0 + back + enclosing_nodes(*idx, n, ni as int));
            }
        },
        None => {
            *front = None;
            assert(nodes_view(arena@) =~= a0 + back + enclosing_nodes(*idx, n, ni as int));
        },
    }
}

/// The callers along `es`, edge by edge.
pub open spec fn caller_refs(es: Seq<Edge>) -> Seq<SpecMethodRef> {
    es.map_values(|e: Edge| e.0)
}

/// Every owner a node of the walk can have.
pub open spec fn walk_owners(idx: Index, start: SpecMethodRef) -> Seq<Seq<char>> {
    seq![start.owner] + idx.source().map_values(|c: SpecClass| c.name) + caller_refs(
        idx.edges(),
    ).map_values(|m: SpecMethodRef| m.owner)
}

/// Every (name, descriptor) a node of the walk can have.
pub open spec fn walk_members(idx: Index, start: SpecMethodRef) -> Seq<(Seq<char>, Seq<char>)> {
    seq![(start.name, start.desc)] + caller_refs(idx.edges()).map_values(
        |m: SpecMethodRef| (m.name, m.desc),
    )
}

/// The signatures of owner `o` with each of `ms`.
spec fn member_keys(o: Seq<char>, ms: Seq<(Seq<char>, Seq<char>)>) -> Seq<Seq<char>> {
    ms.map_values(
        |nd: (Seq<char>, Seq<char>)| spec_signature(SpecMethodRef { owner: o, name: nd.0, desc: nd.1 }),
    )
}

/// Every signature of an owner of `os` with a member of `ms`.
spec fn key_pool(os: Seq<Seq<char>>, ms: Seq<(Seq<char>, Seq<char>)>) -> Seq<Seq<char>>
    decreases os.len(),
{
    if os.len() == 0 {
        Seq::empty()
    } else {
        key_pool(os.drop_last(), ms) + member_keys(os.last(), ms)
    }
}

/// `m` is a method the walk can reach.
pub open spec fn in_universe(idx: Index, start: SpecMethodRef, m: SpecMethodRef) -> bool {
    walk_owners(idx, start).contains(m.owner) && walk_members(idx, start).contains((m.name, m.desc))
}

proof fn lemma_key_pool(os: Seq<Seq<char>>, ms: Seq<(Seq<char>, Seq<char>)>, m: SpecMethodRef)
    requires
        os.contains(m.owner),
        ms.contains((m.name, m.desc)),
    ensures
        key_pool(os, ms).contains(spec_signature(m)),
    decreases os.len(),
{
    let p = key_pool(os.drop_last(), ms);
    let q = member_keys(os.last(), ms);
    if os.last() == m.owner {
        let k = choose|k: int| 0 <= k < ms.len() && ms[k] == (m.name, m.desc);
        assert(q[k] == spec_signature(m));
        assert((p + q)[p.len() + k] == spec_signature(m));
    } else {
        let k = choose|k: int| 0 <= k < os.len() && os[k] == m.owner;
        assert(os.drop_last()[k] == m.owner);
        lemma_key_pool(os.drop_last(), ms, m);
        let t = choose|t: int| 0 <= t < p.len() && p[t] == spec_signature(m);
        assert((p + q)[t] == spec_signature(m));
    }
}

proof fn lemma_along_callers(es: Seq<Edge>, m: SpecMethodRef, c: SpecMethodRef)
    requires
        callers_along(es, m).contains(c),
    ensures
        caller_refs(es).contains(c),
    decreases es.len(),
{
    let r = callers_along(es.drop_last(), m);
    if es.last().1 == m && c == es.last().0 {
        assert(caller_refs(es)[es.len() - 1] == c);
    } else {
        if es.last().1 == m {
            let k = choose|k: int| 0 <= k < r.push(es.last().0).len() && r.push(es.last().0)[k] == c;
            assert(r[k] == c);
        }
        lemma_along_callers(es.drop_last(), m, c);
        let k = choose|k: int| 0 <= k < caller_refs(es.drop_last()).len() && caller_refs(es.drop_last())[k] == c;
        assert(caller_refs(es)[k] == c);
    }
}

proof fn lemma_ctor_callers_in_edges(es: Seq<Edge>, owner: Seq<char>, ms: Seq<crate::dex::SpecMethod>, c: SpecMethodRef)
    requires
        ctor_callers(es, owner, ms).contains(c),
    ensures
        caller_refs(es).contains(c),
    decreases ms.len(),
{
    if ms.last().name == crate::graph::init_name() {
        let p = ctor_callers(es, owner, ms.drop_last());
        let ctor = SpecMethodRef { owner, name: crate::graph::init_name(), desc: ms.last().desc };
        let q = callers_in(es, ctor);
        let k = choose|k: int| 0 <= k < (p + q).len() && (p + q)[k] == c;
        if k < p.len() {
            assert(p[k] == c);
            lemma_ctor_callers_in_edges(es, owner, ms.drop_last(), c);
        } else {
            assert(q[k - p.len()] == c);
            crate::text::lemma_dedup(callers_along(es, ctor));
            lemma_along_callers(es, ctor, c);
        }
    } else {
        lemma_ctor_callers_in_edges(es, owner, ms.drop_last(), c);
    }
}

proof fn lemma_caller_ref_universe(idx: Index, start: SpecMethodRef, c: SpecMethodRef)
    requires
        caller_refs(idx.edges()).contains(c),
    ensures
        in_universe(idx, start, c),
{
    let cr = caller_refs(idx.edges());
    let k = choose|k: int| 0 <= k < cr.len() && cr[k] == c;
    let a = seq![start.owner] + idx.source().map_values(|cl: SpecClass| cl.name);
    let b = cr.map_values(|m: SpecMethodRef| m.owner);
    assert(b[k] == c.owner);
    assert((a + b)[a.len() + k] == c.owner);
    let d = cr.map_values(|m: SpecMethodRef| (m.name, m.desc));
    assert(d[k] == (c.name, c.desc));
    assert((seq![(start.name, start.desc)] + d)[1 + k] == (c.name, c.desc));
}

proof fn lemma_caller_nodes(cs: Seq<SpecMethodRef>, h: int, p: int, t: int)
    requires
        0 <= t < caller_nodes(cs, h, p).len(),
    ensures
        cs.contains(caller_nodes(cs, h, p)[t].sig),
        caller_nodes(cs, h, p)[t].hops == h,
        caller_nodes(cs, h, p)[t].parent == Some(p),
    decreases cs.len(),
{
    let r = caller_nodes(cs.drop_last(), h, p);
    if !spec_is_server_stub(cs.last().owner) && t == r.len() {
        assert(cs[cs.len() - 1] == cs.last());
    } else {
        if !spec_is_server_stub(cs.last().owner) {
            assert(caller_nodes(cs, h, p)[t] == r[t]);
        }
        lemma_caller_nodes(cs.drop_last(), h, p, t);
        let k = choose|k: int| 0 <= k < cs.drop_last().len() && cs.drop_last()[k] == r[t].sig;
        assert(cs[k] == r[t].sig);
    }
}

/// The nodes that a reachable node queues are reachable.
proof fn lemma_expansion_universe(idx: Index, start: SpecMethodRef, n: SpecNode, i: int, t: int)
    requires
        idx.wf(),
        in_universe(idx, start, n.sig),
        0 <= t < (back_nodes(idx, n, i) + enclosing_nodes(idx, n, i)).len(),
    ensures
        in_universe(idx, start, (back_nodes(idx, n, i) + enclosing_nodes(idx, n, i))[t].sig),
{
    let cn = caller_nodes(callers_in(idx.edges(), n.sig), n.hops + 1, i);
    let ln = lambda_nodes(idx, n, i);
    let en = enclosing_nodes(idx, n, i);
    let ch = back_nodes(idx, n, i) + en;
    assert(ch == cn + ln + en);
    if t < cn.len() {
        assert(ch[t] == cn[t]);
        lemma_caller_nodes(callers_in(idx.edges(), n.sig), n.hops + 1, i, t);
        let c = cn[t].sig;
        crate::text::lemma_dedup(callers_along(idx.edges(), n.sig));
        lemma_along_callers(idx.edges(), n.sig, c);
        lemma_caller_ref_universe(idx, start, c);
    } else if t < cn.len() + ln.len() {
        assert(ch[t] == ln[t - cn.len()]);
        let cs = idx.spec_constructor_callers(n.sig.owner);
        lemma_caller_nodes(cs, n.hops + 1, i, t - cn.len());
        let c = ln[t - cn.len()].sig;
        let cl = idx.class_named(n.sig.owner).unwrap();
        lemma_ctor_callers_in_edges(idx.edges(), n.sig.owner, cl.methods, c);
        lemma_caller_ref_universe(idx, start, c);
    } else {
        assert(ch[t] == en[t - cn.len() - ln.len()]);
        let outer = spec_enclosing(n.sig.owner).unwrap();
        lemma_named_member(idx.source(), outer);
        lemma_named_name(idx.source(), outer);
        let cl = idx.class_named(outer).unwrap();
        let k = choose|k: int| 0 <= k < idx.source().len() && idx.source()[k] == cl;
        let a0 = seq![start.owner];
        let a1 = idx.source().map_values(|c: SpecClass| c.name);
        let a2 = caller_refs(idx.edges()).map_values(|m: SpecMethodRef| m.owner);
        assert(a1[k] == outer);
        assert((a0 + a1 + a2)[1 + k] == outer);
    }
}

/// Once the walk is done, further steps leave it as it is.
pub proof fn lemma_walk_settles(idx: Index, start: SpecMethodRef, all_paths: bool, k: nat, m: nat)
    requires
        walk_done(walk(idx, start, all_paths, k)),
        k <= m,
    ensures
        walk(idx, start, all_paths, m) == walk(idx, start, all_paths, k),
    decreases m - k,
{
    if m > k {
        lemma_walk_settles(idx, start, all_paths, k, (m - 1) as nat);
    }
}

/// The walk ends in one state, however many steps are counted past its end:
/// what a trace reports is determined by the index, the start and the mode.
pub proof fn lemma_walk_outcome_unique(idx: Index, start: SpecMethodRef, all_paths: bool, k1: nat, k2: nat)
    requires
        walk_done(walk(idx, start, all_paths, k1)),
        walk_done(walk(idx, start, all_paths, k2)),
    ensures
        walk(idx, start, all_paths, k1) == walk(idx, start, all_paths, k2),
{
    if k1 <= k2 {
        lemma_walk_settles(idx, start, all_paths, k1, k2);
    } else {
        lemma_walk_settles(idx, start, all_paths, k2, k1);
    }
}

/// `m` names a class of a public namespace, in dotted form.
pub open spec fn names_public_class(m: SpecMapping) -> bool {
    exists|o: Seq<char>| #[trigger] spec_is_public_namespace(o) && m.public_class == replace_char(o, '/', '.')
}

/// `m` names the traced method, lies within the hop bound, and names a
/// public class.
pub open spec fn mapping_ok(start: SpecMethodRef, m: SpecMapping) -> bool {
    &&& m.aidl == spec_fqn(start)
    &&& m.hops <= MAX_HOPS
    &&& names_public_class(m)
}

/// What holds of every state of the walk.
spec fn walk_inv(start: SpecMethodRef, s: WalkState) -> bool {
    &&& s.arena.len() >= 1
    &&& 0 <= s.head <= s.queue.len()
    &&& forall|j: int| 0 <= j < s.queue.len() ==> 0 <= #[trigger] s.queue[j] < s.arena.len()
    &&& s.front matches Some(f) ==> 0 <= f < s.arena.len()
    &&& 0 <= s.deepest < s.arena.len()
    &&& forall|j: int| 0 <= j < s.arena.len() ==> (#[trigger] s.arena[j]).hops >= 0
    &&& forall|t: int| 0 <= t < s.mappings.len() ==> mapping_ok(start, #[trigger] s.mappings[t])
}

/// The caller nodes all lie at hops `h` and name `p` as their parent.
proof fn lemma_caller_nodes_all(cs: Seq<SpecMethodRef>, h: int, p: int)
    ensures
        forall|t: int|
            0 <= t < caller_nodes(cs, h, p).len() ==> (#[trigger] caller_nodes(cs, h, p)[t]).hops == h
                && caller_nodes(cs, h, p)[t].parent == Some(p),
{
    assert forall|t: int| 0 <= t < caller_nodes(cs, h, p).len() implies (#[trigger] caller_nodes(cs, h, p)[t]).hops == h
        && caller_nodes(cs, h, p)[t].parent == Some(p) by {
        lemma_caller_nodes(cs, h, p, t);
    }
}

/// Visiting a node keeps the walk's invariant.
proof fn lemma_visit_inv(idx: Index, start: SpecMethodRef, all_paths: bool, s: WalkState, i: int)
    requires
        walk_inv(start, s),
        0 <= i < s.arena.len(),
    ensures
        walk_inv(start, visit(idx, start, all_paths, s, i)),
{
    let n = s.arena[i];
    let key = spec_signature(n.sig);
    if !s.visited.contains(key) && n.hops <= MAX_HOPS {
        let r = visit(idx, start, all_paths, s, i);
        let direct = idx.spec_is_public(n.sig);
        let over = override_hit(idx, n);
        let p = idx.spec_public_override(n.sig).unwrap();
        let d = if direct {
            seq![direct_mapping(idx, start, n)]
        } else {
            Seq::empty()
        };
        let o = if over {
            seq![override_mapping(idx, start, n, p)]
        } else {
            Seq::empty()
        };
        let ms = s.mappings + d + o;
        assert(r.mappings == ms);
        assert forall|t: int| 0 <= t < ms.len() implies mapping_ok(start, #[trigger] ms[t]) by {
            if t < s.mappings.len() {
                assert(ms[t] == s.mappings[t]);
            } else if direct && t == s.mappings.len() {
                assert(ms[t] == direct_mapping(idx, start, n));
                assert(spec_is_public_namespace(n.sig.owner));
            } else {
                assert(ms[t] == override_mapping(idx, start, n, p));
                assert(spec_is_public_namespace(p.owner));
            }
        }
        if !((direct || over) && !all_paths) {
            let back = back_nodes(idx, n, i);
            let en = enclosing_nodes(idx, n, i);
            let cn = caller_nodes(callers_in(idx.edges(), n.sig), n.hops + 1, i);
            let ln = lambda_nodes(idx, n, i);
            lemma_caller_nodes_all(callers_in(idx.edges(), n.sig), n.hops + 1, i);
            lemma_caller_nodes_all(idx.spec_constructor_callers(n.sig.owner), n.hops + 1, i);
            let a = s.arena + back + en;
            assert(r.arena == a);
            assert forall|j: int| 0 <= j < a.len() implies (#[trigger] a[j]).hops >= 0 by {
                if j < s.arena.len() {
                    assert(a[j] == s.arena[j]);
                } else if j < s.arena.len() + cn.len() {
                    assert(a[j] == cn[j - s.arena.len()]);
                } else if j < s.arena.len() + back.len() {
                    assert(a[j] == ln[j - s.arena.len() - cn.len()]);
                } else {
                    assert(a[j] == en[j - s.arena.len() - back.len()]);
                }
            }
            let q = s.queue + positions(s.arena.len() as int, back.len() as int);
            assert(r.queue == q);
            assert forall|j: int| 0 <= j < q.len() implies 0 <= #[trigger] q[j] < a.len() by {
                if j < s.queue.len() {
                    assert(q[j] == s.queue[j]);
                }
            }
        }
    }
}

/// Every state of the walk keeps its invariant.
proof fn lemma_walk_inv(idx: Index, start: SpecMethodRef, all_paths: bool, k: nat)
    ensures
        walk_inv(start, walk(idx, start, all_paths, k)),
    decreases k,
{
    if k == 0 {
        let s = initial_walk(start);
        assert(s.arena[0] == start_node(start));
    } else {
        lemma_walk_inv(idx, start, all_paths, (k - 1) as nat);
        let s = walk(idx, start, all_paths, (k - 1) as nat);
        if !walk_done(s) {
            let (i, t) = take_next(s);
            if s.front is None {
                assert(s.queue[s.head] == i);
            }
            lemma_visit_inv(idx, start, all_paths, t, i);
        }
    }
}

/// Every mapping of a trace names the traced AIDL method, lies within
/// `MAX_HOPS` hops of it, and names a public class of a public namespace:
/// nothing maps into `com.android.internal` or the Binder runtime.
pub proof fn lemma_trace_mappings(idx: Index, start: SpecMethodRef, all_paths: bool, k: nat)
    ensures
        forall|t: int|
            0 <= t < walk_outcome(idx, walk(idx, start, all_paths, k)).0.len() ==> mapping_ok(
                start,
                #[trigger] walk_outcome(idx, walk(idx, start, all_paths, k)).0[t],
            ),
{
    lemma_walk_inv(idx, start, all_paths, k);
}

/// The hops of the node that step `k` of the walk takes (0 once it is done).
pub open spec fn taken_hops(idx: Index, start: SpecMethodRef, all_paths: bool, k: nat) -> int {
    let s = walk(idx, start, all_paths, k);
    if walk_done(s) {
        0
    } else {
        s.arena[take_next(s).0].hops
    }
}

/// The hops of the node taken last before step `k` (0 before the first).
spec fn level(idx: Index, start: SpecMethodRef, all_paths: bool, k: nat) -> int
    decreases k,
{
    if k == 0 {
        0
    } else if walk_done(walk(idx, start, all_paths, (k - 1) as nat)) {
        level(idx, start, all_paths, (k - 1) as nat)
    } else {
        taken_hops(idx, start, all_paths, (k - 1) as nat)
    }
}

/// The waiting nodes, at level `l`: the front one at `l`, those at the back
/// between `l` and `l + 1`, in nondecreasing order.
spec fn order_inv(s: WalkState, l: int) -> bool {
    &&& s.front matches Some(f) ==> s.arena[f].hops == l
    &&& forall|j: int| s.head <= j < s.queue.len() ==> l <= s.arena[#[trigger] s.queue[j]].hops <= l + 1
    &&& forall|j1: int, j2: int|
        s.head <= j1 <= j2 < s.queue.len() ==> s.arena[#[trigger] s.queue[j1]].hops <= s.arena[#[trigger] s.queue[j2]].hops
}

/// Visiting a node at level `h`, with nothing at the front, keeps the waiting
/// nodes in order at level `h`.
proof fn lemma_visit_order(idx: Index, start: SpecMethodRef, all_paths: bool, t: WalkState, i: int, h: int)
    requires
        walk_inv(start, t),
        0 <= i < t.arena.len(),
        t.arena[i].hops == h,
        t.front is None,
        order_inv(t, h),
    ensures
        order_inv(visit(idx, start, all_paths, t, i), h),
{
    let n = t.arena[i];
    let r = visit(idx, start, all_paths, t, i);
    let key = spec_signature(n.sig);
    if !t.visited.contains(key) && n.hops <= MAX_HOPS {
        let direct = idx.spec_is_public(n.sig);
        let over = override_hit(idx, n);
        if !((direct || over) && !all_paths) {
            let back = back_nodes(idx, n, i);
            let en = enclosing_nodes(idx, n, i);
            let cn = caller_nodes(callers_in(idx.edges(), n.sig), n.hops + 1, i);
            let ln = lambda_nodes(idx, n, i);
            lemma_caller_nodes_all(callers_in(idx.edges(), n.sig), n.hops + 1, i);
            lemma_caller_nodes_all(idx.spec_constructor_callers(n.sig.owner), n.hops + 1, i);
            let a = t.arena + back + en;
            let q = t.queue + positions(t.arena.len() as int, back.len() as int);
            assert(r.arena == a);
            assert(r.queue == q);
            assert forall|j: int| 0 <= j < back.len() implies (#[trigger] back[j]).hops == h + 1 by {
                if j < cn.len() {
                    assert(back[j] == cn[j]);
                } else {
                    assert(back[j] == ln[j - cn.len()]);
                }
            }
            assert forall|j: int| t.head <= j < q.len() implies h <= a[#[trigger] q[j]].hops <= h + 1 && (j
                >= t.queue.len() ==> a[q[j]].hops == h + 1) && (j < t.queue.len() ==> a[q[j]]
                == t.arena[t.queue[j]]) by {
                if j < t.queue.len() {
                    assert(q[j] == t.queue[j]);
                    assert(a[t.queue[j]] == t.arena[t.queue[j]]);
                } else {
                    assert(q[j] == t.arena.len() + (j - t.queue.len()));
                    assert(a[q[j]] == back[j - t.queue.len()]);
                }
            }
            assert forall|j1: int, j2: int| t.head <= j1 <= j2 < q.len() implies a[#[trigger] q[j1]].hops
                <= a[#[trigger] q[j2]].hops by {
                if j2 < t.queue.len() {
                    assert(t.arena[t.queue[j1]].hops <= t.arena[t.queue[j2]].hops);
                }
            }
            if en.len() > 0 {
                assert(a[(t.arena + back).len() as int] == en[0]);
            }
        }
    }
}

/// Taking the next node: its hops are at least the level, and the nodes
/// still waiting are in order at its hops.
proof fn lemma_take_order(s: WalkState, l: int, start: SpecMethodRef)
    requires
        walk_inv(start, s),
        order_inv(s, l),
        !walk_done(s),
    ensures
        ({
            let (i, t) = take_next(s);
            let h = s.arena[i].hops;
            &&& l <= h
            &&& 0 <= i < s.arena.len()
            &&& t.front is None
            &&& t.arena == s.arena
            &&& order_inv(t, h)
            &&& walk_inv(start, t)
        }),
{
    let (i, t) = take_next(s);
    let h = s.arena[i].hops;
    if s.front is None {
        assert(s.queue[s.head] == i);
        assert forall|j: int| t.head <= j < t.queue.len() implies h <= t.arena[#[trigger] t.queue[j]].hops <= h + 1 by {
            assert(s.arena[s.queue[s.head]].hops <= s.arena[s.queue[j]].hops);
        }
    }
}

/// The walk's invariants, at the level of its last step.
proof fn lemma_walk_order_inv(idx: Index, start: SpecMethodRef, all_paths: bool, k: nat)
    ensures
        walk_inv(start, walk(idx, start, all_paths, k)),
        order_inv(walk(idx, start, all_paths, k), level(idx, start, all_paths, k)),
    decreases k,
{
    lemma_walk_inv(idx, start, all_paths, k);
    if k == 0 {
        let s = initial_walk(start);
        assert(s.arena[0] == start_node(start));
        assert(s.queue[0] == 0);
    } else {
        lemma_walk_order_inv(idx, start, all_paths, (k - 1) as nat);
        let s = walk(idx, start, all_paths, (k - 1) as nat);
        if !walk_done(s) {
            let l = level(idx, start, all_paths, (k - 1) as nat);
            lemma_take_order(s, l, start);
            let (i, t) = take_next(s);
            lemma_visit_order(idx, start, all_paths, t, i, s.arena[i].hops);
        }
    }
}

/// The node step `k` takes is at least as far as the level before it.
proof fn lemma_taken_above_level(idx: Index, start: SpecMethodRef, all_paths: bool, k: nat)
    requires
        !walk_done(walk(idx, start, all_paths, k)),
    ensures
        level(idx, start, all_paths, k) <= taken_hops(idx, start, all_paths, k),
{
    lemma_walk_order_inv(idx, start, all_paths, k);
    lemma_take_order(walk(idx, start, all_paths, k), level(idx, start, all_paths, k), start);
}

/// The walk takes its nodes in order of their hops: a later step never
/// takes a node with fewer hops than an earlier one.
pub proof fn lemma_walk_in_hop_order(idx: Index, start: SpecMethodRef, all_paths: bool, k1: nat, k2: nat)
    requires
        k1 <= k2,
        !walk_done(walk(idx, start, all_paths, k2)),
    ensures
        taken_hops(idx, start, all_paths, k1) <= taken_hops(idx, start, all_paths, k2),
    decreases k2 - k1,
{
    if k1 < k2 {
        let p = (k2 - 1) as nat;
        if walk_done(walk(idx, start, all_paths, p)) {
            lemma_walk_settles(idx, start, all_paths, p, k2);
        }
        lemma_walk_in_hop_order(idx, start, all_paths, k1, p);
        lemma_taken_above_level(idx, start, all_paths, k2);
    }
}

// ---------------------------------------------------------------------------
// The walk finds the shortest chains
// ---------------------------------------------------------------------------

/// The node that step `k` of the walk takes.
pub open spec fn taken_node(idx: Index, start: SpecMethodRef, all_paths: bool, k: nat) -> SpecNode {
    let s = walk(idx, start, all_paths, k);
    s.arena[take_next(s).0]
}

/// Reaching `m` ends a branch: it is a hit and only the first hit of each
/// branch is wanted.
pub open spec fn stops(idx: Index, all_paths: bool, m: SpecMethodRef) -> bool {
    !all_paths && (idx.spec_is_public(m) || override_hit(idx, SpecNode { sig: m, hops: 0, parent: None }))
}

/// The nodes one step from `n`: its callers and a lambda's construction
/// sites one hop further, its enclosing class's method at no cost.
pub open spec fn successors(idx: Index, n: SpecNode) -> Seq<SpecNode> {
    back_nodes(idx, n, 0) + enclosing_nodes(idx, n, 0)
}

/// `m` is one step from `n`, with the hops that step gives it.
pub open spec fn step_to(idx: Index, n: SpecNode, m: SpecNode) -> bool {
    exists|t: int|
        0 <= t < successors(idx, n).len() && (#[trigger] successors(idx, n)[t]).sig == m.sig
            && successors(idx, n)[t].hops == m.hops
}

/// A chain from `start`: each method, but the last, is one that the walk
/// goes on from, and each next method one step from it; a node's hops count
/// the caller steps so far, enclosing-class steps being free.
pub open spec fn is_route(idx: Index, start: SpecMethodRef, all_paths: bool, r: Seq<SpecNode>) -> bool {
    &&& r.len() >= 1
    &&& r[0].sig == start
    &&& r[0].hops == 0
    &&& forall|j: int|
        0 <= j < r.len() - 1 ==> !stops(idx, all_paths, (#[trigger] r[j]).sig) && step_to(idx, r[j], r[j + 1])
}

/// No two methods that the walk can reach share a signature.
pub open spec fn signatures_identify(idx: Index, start: SpecMethodRef) -> bool {
    forall|a: SpecMethodRef, b: SpecMethodRef|
        #[trigger] in_universe(idx, start, a) && #[trigger] in_universe(idx, start, b) && spec_signature(a)
            == spec_signature(b) ==> a == b
}

/// The callers' nodes do not depend on their hops or parent, but for the
/// hops.
proof fn lemma_caller_nodes_shift(cs: Seq<SpecMethodRef>, h: int, p: int, h2: int, p2: int)
    ensures
        caller_nodes(cs, h, p).len() == caller_nodes(cs, h2, p2).len(),
        forall|t: int|
            0 <= t < caller_nodes(cs, h, p).len() ==> (#[trigger] caller_nodes(cs, h, p)[t]).sig
                == caller_nodes(cs, h2, p2)[t].sig && caller_nodes(cs, h, p)[t].hops == h
                && caller_nodes(cs, h2, p2)[t].hops == h2,
    decreases cs.len(),
{
    if cs.len() > 0 {
        lemma_caller_nodes_shift(cs.drop_last(), h, p, h2, p2);
    }
}

/// What a node queues depends on its method; the hops follow its own,
/// adding one or nothing.
proof fn lemma_succ_shift(idx: Index, n: SpecNode, i: int, n2: SpecNode, i2: int)
    requires
        n.sig == n2.sig,
    ensures
        (back_nodes(idx, n, i) + enclosing_nodes(idx, n, i)).len() == (back_nodes(idx, n2, i2)
            + enclosing_nodes(idx, n2, i2)).len(),
        forall|t: int|
            0 <= t < (back_nodes(idx, n, i) + enclosing_nodes(idx, n, i)).len() ==> {
                let x = #[trigger] (back_nodes(idx, n, i) + enclosing_nodes(idx, n, i))[t];
                let y = (back_nodes(idx, n2, i2) + enclosing_nodes(idx, n2, i2))[t];
                &&& x.sig == y.sig
                &&& x.hops - n.hops == y.hops - n2.hops
                &&& n.hops <= x.hops <= n.hops + 1
            },
{
    let cs = callers_in(idx.edges(), n.sig);
    let ks = idx.spec_constructor_callers(n.sig.owner);
    lemma_caller_nodes_shift(cs, n.hops + 1, i, n2.hops + 1, i2);
    lemma_caller_nodes_shift(ks, n.hops + 1, i, n2.hops + 1, i2);
    let a = back_nodes(idx, n, i) + enclosing_nodes(idx, n, i);
    let b = back_nodes(idx, n2, i2) + enclosing_nodes(idx, n2, i2);
    let c1 = caller_nodes(cs, n.hops + 1, i);
    let c2 = caller_nodes(cs, n2.hops + 1, i2);
    let l1 = lambda_nodes(idx, n, i);
    let l2 = lambda_nodes(idx, n2, i2);
    let e1 = enclosing_nodes(idx, n, i);
    let e2 = enclosing_nodes(idx, n2, i2);
    assert(a == c1 + l1 + e1);
    assert(b == c2 + l2 + e2);
    assert forall|t: int| 0 <= t < a.len() implies {
        let x = #[trigger] a[t];
        let y = b[t];
        &&& x.sig == y.sig
        &&& x.hops - n.hops == y.hops - n2.hops
        &&& n.hops <= x.hops <= n.hops + 1
    } by {
        if t < c1.len() {
            assert(a[t] == c1[t] && b[t] == c2[t]);
        } else if t < c1.len() + l1.len() {
            assert(a[t] == l1[t - c1.len()] && b[t] == l2[t - c1.len()]);
        } else {
            assert(a[t] == e1[t - c1.len() - l1.len()] && b[t] == e2[t - c1.len() - l1.len()]);
        }
    }
}

/// Later states of the walk extend the earlier ones' arenas.
proof fn lemma_arena_grows(idx: Index, start: SpecMethodRef, all_paths: bool, j: nat, k: nat)
    requires
        j <= k,
    ensures
        walk(idx, start, all_paths, j).arena.len() <= walk(idx, start, all_paths, k).arena.len(),
        forall|a: int|
            0 <= a < walk(idx, start, all_paths, j).arena.len() ==> #[trigger] walk(idx, start, all_paths, k).arena[a]
                == walk(idx, start, all_paths, j).arena[a],
    decreases k - j,
{
    if j < k {
        lemma_arena_grows(idx, start, all_paths, j, (k - 1) as nat);
        let s = walk(idx, start, all_paths, (k - 1) as nat);
        if !walk_done(s) {
            let (i, t) = take_next(s);
            let r = visit(idx, start, all_paths, t, i);
            let n = t.arena[i];
            let key = spec_signature(n.sig);
            if !t.visited.contains(key) && n.hops <= MAX_HOPS && !((idx.spec_is_public(n.sig)
                || override_hit(idx, n)) && !all_paths) {
                let back = back_nodes(idx, n, i);
                let en = enclosing_nodes(idx, n, i);
                assert(r.arena == t.arena + back + en);
                assert forall|a: int| 0 <= a < t.arena.len() implies #[trigger] r.arena[a] == t.arena[a] by {
                    assert((t.arena + back + en)[a] == t.arena[a]);
                }
            }
        }
    }
}

/// Every node of the walk is one the walk can reach.
proof fn lemma_walk_universe(idx: Index, start: SpecMethodRef, all_paths: bool, k: nat)
    requires
        idx.wf(),
    ensures
        forall|a: int|
            0 <= a < walk(idx, start, all_paths, k).arena.len() ==> in_universe(
                idx,
                start,
                (#[trigger] walk(idx, start, all_paths, k).arena[a]).sig,
            ),
    decreases k,
{
    if k == 0 {
        assert(walk_owners(idx, start)[0] == start.owner);
        assert(walk_members(idx, start)[0] == (start.name, start.desc));
        assert(walk(idx, start, all_paths, 0).arena[0] == start_node(start));
    } else {
        lemma_walk_universe(idx, start, all_paths, (k - 1) as nat);
        lemma_walk_inv(idx, start, all_paths, (k - 1) as nat);
        let s = walk(idx, start, all_paths, (k - 1) as nat);
        if !walk_done(s) {
            let (i, t) = take_next(s);
            if s.front is None {
                assert(s.queue[s.head] == i);
            }
            let r = visit(idx, start, all_paths, t, i);
            let n = t.arena[i];
            let key = spec_signature(n.sig);
            if !t.visited.contains(key) && n.hops <= MAX_HOPS && !((idx.spec_is_public(n.sig)
                || override_hit(idx, n)) && !all_paths) {
                let back = back_nodes(idx, n, i);
                let en = enclosing_nodes(idx, n, i);
                assert(r.arena == t.arena + back + en);
                assert forall|a: int| 0 <= a < r.arena.len() implies in_universe(idx, start, (#[trigger] r.arena[a]).sig) by {
                    if a < t.arena.len() {
                        assert(r.arena[a] == t.arena[a]);
                    } else {
                        assert(r.arena[a] == (back + en)[a - t.arena.len()]);
                        lemma_expansion_universe(idx, start, n, i, a - t.arena.len());
                    }
                }
            }
        }
    }
}

/// Node `a` waits to be taken.
spec fn pending(s: WalkState, a: int) -> bool {
    s.front == Some(a) || exists|j: int| s.head <= j < s.queue.len() && #[trigger] s.queue[j] == a
}

/// Visiting node `i` of `t` queues its children.
spec fn expands_at(idx: Index, all_paths: bool, t: WalkState, i: int) -> bool {
    let n = t.arena[i];
    !t.visited.contains(spec_signature(n.sig)) && n.hops <= MAX_HOPS && !stops(idx, all_paths, n.sig)
}

/// What a visit changes: it adds the signature to those seen, leaves the
/// back of the queue where it was, and queues the children exactly when it
/// expands the node.
proof fn lemma_visit_shape(idx: Index, start: SpecMethodRef, all_paths: bool, t: WalkState, i: int)
    ensures
        ({
            let r = visit(idx, start, all_paths, t, i);
            let n = t.arena[i];
            &&& r.visited == t.visited.insert(spec_signature(n.sig))
            &&& r.head == t.head
            &&& expands_at(idx, all_paths, t, i) ==> {
                &&& r.arena == t.arena + back_nodes(idx, n, i) + enclosing_nodes(idx, n, i)
                &&& r.queue == t.queue + positions(t.arena.len() as int, back_nodes(idx, n, i).len() as int)
                &&& r.front == (if enclosing_nodes(idx, n, i).len() > 0 {
                    Some((t.arena + back_nodes(idx, n, i)).len() as int)
                } else {
                    None
                })
            }
            &&& !expands_at(idx, all_paths, t, i) ==> r.arena == t.arena && r.queue == t.queue && r.front
                == t.front
        }),
{
    let n = t.arena[i];
    let key = spec_signature(n.sig);
    if t.visited.contains(key) {
        assert(t.visited.insert(key) =~= t.visited);
    }
    assert(override_hit(idx, n) == override_hit(idx, SpecNode { sig: n.sig, hops: 0, parent: None }));
}

/// The signatures seen are those of the nodes taken so far.
proof fn lemma_visited_history(idx: Index, start: SpecMethodRef, all_paths: bool, k: nat)
    ensures
        forall|key: Seq<char>|
            walk(idx, start, all_paths, k).visited.contains(key) <==> exists|i: nat|
                i < k && !walk_done(walk(idx, start, all_paths, i)) && spec_signature(
                    (#[trigger] taken_node(idx, start, all_paths, i)).sig,
                ) == key,
    decreases k,
{
    if k > 0 {
        let p = (k - 1) as nat;
        lemma_visited_history(idx, start, all_paths, p);
        let s = walk(idx, start, all_paths, p);
        let w = walk(idx, start, all_paths, k);
        if !walk_done(s) {
            let (i, t) = take_next(s);
            lemma_visit_shape(idx, start, all_paths, t, i);
            assert(t.arena == s.arena);
            assert(t.visited == s.visited);
            assert(w == visit(idx, start, all_paths, t, i));
            assert(w.visited == s.visited.insert(spec_signature(taken_node(idx, start, all_paths, p).sig)));
        } else {
            assert(w == s);
        }
        assert forall|key: Seq<char>|
            w.visited.contains(key) <==> exists|i: nat|
                i < k && !walk_done(walk(idx, start, all_paths, i)) && spec_signature(
                    (#[trigger] taken_node(idx, start, all_paths, i)).sig,
                ) == key by {
            if w.visited.contains(key) {
                if !walk_done(s) && key == spec_signature(taken_node(idx, start, all_paths, p).sig) {
                    assert(p < k && !walk_done(walk(idx, start, all_paths, p)) && spec_signature(
                        taken_node(idx, start, all_paths, p).sig,
                    ) == key);
                } else {
                    assert(s.visited.contains(key));
                    let i = choose|i: nat|
                        i < p && !walk_done(walk(idx, start, all_paths, i)) && spec_signature(
                            (#[trigger] taken_node(idx, start, all_paths, i)).sig,
                        ) == key;
                    assert(i < k);
                }
            }
            if exists|i: nat|
                i < k && !walk_done(walk(idx, start, all_paths, i)) && spec_signature(
                    (#[trigger] taken_node(idx, start, all_paths, i)).sig,
                ) == key {
                let i = choose|i: nat|
                    i < k && !walk_done(walk(idx, start, all_paths, i)) && spec_signature(
                        (#[trigger] taken_node(idx, start, all_paths, i)).sig,
                    ) == key;
                if i < p {
                    assert(s.visited.contains(key));
                } else {
                    assert(i == p);
                }
            }
        }
    }
}

/// Every node of the walk waits to be taken or has been taken.
proof fn lemma_taken_or_pending(idx: Index, start: SpecMethodRef, all_paths: bool, k: nat)
    ensures
        forall|a: int|
            0 <= a < walk(idx, start, all_paths, k).arena.len() ==> pending(
                #[trigger] walk(idx, start, all_paths, k),
                a,
            ) || exists|i: nat|
                i < k && !walk_done(walk(idx, start, all_paths, i)) && (#[trigger] take_next(
                    walk(idx, start, all_paths, i),
                )).0 == a,
    decreases k,
{
    let s = walk(idx, start, all_paths, k);
    if k == 0 {
        assert forall|a: int| 0 <= a < s.arena.len() implies pending(s, a) by {
            assert(s.queue[0] == 0);
        }
    } else {
        let p = (k - 1) as nat;
        lemma_taken_or_pending(idx, start, all_paths, p);
        lemma_walk_inv(idx, start, all_paths, p);
        let s0 = walk(idx, start, all_paths, p);
        if !walk_done(s0) {
            let (i, t) = take_next(s0);
            lemma_visit_shape(idx, start, all_paths, t, i);
            let n = t.arena[i];
            let back = back_nodes(idx, n, i);
            assert(s == visit(idx, start, all_paths, t, i));
            assert(t.arena == s0.arena);
            assert forall|a: int| 0 <= a < s.arena.len() implies pending(s, a) || exists|i2: nat|
                i2 < k && !walk_done(walk(idx, start, all_paths, i2)) && (#[trigger] take_next(
                    walk(idx, start, all_paths, i2),
                )).0 == a by {
                if a == i {
                    assert(p < k && !walk_done(walk(idx, start, all_paths, p)) && take_next(
                        walk(idx, start, all_paths, p),
                    ).0 == a);
                } else if a < s0.arena.len() {
                    if pending(s0, a) {
                        if s0.front == Some(a) {
                            assert(false);
                        }
                        let j = choose|j: int| s0.head <= j < s0.queue.len() && #[trigger] s0.queue[j] == a;
                        if s0.front is None {
                            assert(s0.queue[s0.head] == i);
                        }
                        assert(t.head <= j);
                        if expands_at(idx, all_paths, t, i) {
                            assert(s.queue[j] == t.queue[j]);
                        }
                        assert(s.head <= j < s.queue.len() && s.queue[j] == a);
                        assert(pending(s, a));
                    } else {
                        let i2 = choose|i2: nat|
                            i2 < p && !walk_done(walk(idx, start, all_paths, i2)) && (#[trigger] take_next(
                                walk(idx, start, all_paths, i2),
                            )).0 == a;
                        assert(i2 < k && !walk_done(walk(idx, start, all_paths, i2)) && take_next(
                            walk(idx, start, all_paths, i2),
                        ).0 == a);
                    }
                } else {
                    assert(expands_at(idx, all_paths, t, i));
                    if a < s0.arena.len() + back.len() {
                        let j = t.queue.len() + (a - s0.arena.len());
                        let pq = positions(t.arena.len() as int, back.len() as int);
                        assert(s.queue == t.queue + pq);
                        assert(s.queue[j] == pq[a - s0.arena.len()]);
                        assert(s.head <= j < s.queue.len() && s.queue[j] == a);
                        assert(pending(s, a));
                    } else {
                        assert(s.front == Some(a));
                    }
                }
            }
        } else {
            assert(s == s0);
            assert forall|a: int| 0 <= a < s.arena.len() implies pending(s, a) || exists|i2: nat|
                i2 < k && !walk_done(walk(idx, start, all_paths, i2)) && (#[trigger] take_next(
                    walk(idx, start, all_paths, i2),
                )).0 == a by {
                if !pending(s0, a) {
                    let i2 = choose|i2: nat|
                        i2 < p && !walk_done(walk(idx, start, all_paths, i2)) && (#[trigger] take_next(
                            walk(idx, start, all_paths, i2),
                        )).0 == a;
                }
            }
        }
    }
}

/// The node a step takes has the fewest hops of those waiting.
proof fn lemma_pending_above(idx: Index, start: SpecMethodRef, all_paths: bool, k: nat, a: int)
    requires
        !walk_done(walk(idx, start, all_paths, k)),
        pending(walk(idx, start, all_paths, k), a),
    ensures
        walk(idx, start, all_paths, k).arena[a].hops >= taken_hops(idx, start, all_paths, k),
{
    let s = walk(idx, start, all_paths, k);
    lemma_walk_order_inv(idx, start, all_paths, k);
    let l = level(idx, start, all_paths, k);
    lemma_take_order(s, l, start);
    if s.front is None {
        let j = choose|j: int| s.head <= j < s.queue.len() && #[trigger] s.queue[j] == a;
        assert(s.arena[s.queue[s.head]].hops <= s.arena[s.queue[j]].hops);
    }
}

/// The node step `k` takes is seen there for the first time.
pub open spec fn fresh_at(idx: Index, start: SpecMethodRef, all_paths: bool, k: nat) -> bool {
    !walk(idx, start, all_paths, k).visited.contains(spec_signature(taken_node(idx, start, all_paths, k).sig))
}

/// What a step takes is a node of the walk, one it can reach.
proof fn lemma_taken_in_arena(idx: Index, start: SpecMethodRef, all_paths: bool, k: nat)
    requires
        idx.wf(),
        !walk_done(walk(idx, start, all_paths, k)),
    ensures
        0 <= take_next(walk(idx, start, all_paths, k)).0 < walk(idx, start, all_paths, k).arena.len(),
        in_universe(idx, start, taken_node(idx, start, all_paths, k).sig),
{
    let s = walk(idx, start, all_paths, k);
    lemma_walk_inv(idx, start, all_paths, k);
    lemma_walk_universe(idx, start, all_paths, k);
    if s.front is None {
        assert(s.queue[s.head] == take_next(s).0);
    }
}

/// Hops never fall along a chain, nor along a step.
proof fn lemma_route_hops(idx: Index, start: SpecMethodRef, all_paths: bool, r: Seq<SpecNode>, j: int)
    requires
        idx.wf(),
        is_route(idx, start, all_paths, r),
        0 <= j < r.len(),
    ensures
        0 <= r[j].hops <= r.last().hops,
        in_universe(idx, start, r[j].sig),
    decreases r.len() - j,
{
    if j == 0 {
        assert(walk_owners(idx, start)[0] == start.owner);
        assert(walk_members(idx, start)[0] == (start.name, start.desc));
    }
    if j < r.len() - 1 {
        lemma_route_hops(idx, start, all_paths, r, j + 1);
        assert(step_to(idx, r[j], r[j + 1]));
        let t = choose|t: int|
            0 <= t < successors(idx, r[j]).len() && (#[trigger] successors(idx, r[j])[t]).sig == r[j + 1].sig
                && successors(idx, r[j])[t].hops == r[j + 1].hops;
        lemma_succ_shift(idx, r[j], 0, r[j], 0);
    }
    if j > 0 {
        lemma_route_hops_front(idx, start, all_paths, r, j);
    }
}

/// Each node of a chain is reachable and at least as far as the start.
proof fn lemma_route_hops_front(idx: Index, start: SpecMethodRef, all_paths: bool, r: Seq<SpecNode>, j: int)
    requires
        idx.wf(),
        is_route(idx, start, all_paths, r),
        0 <= j < r.len(),
    ensures
        r[j].hops >= 0,
        in_universe(idx, start, r[j].sig),
    decreases j,
{
    if j == 0 {
        assert(walk_owners(idx, start)[0] == start.owner);
        assert(walk_members(idx, start)[0] == (start.name, start.desc));
    } else {
        lemma_route_hops_front(idx, start, all_paths, r, j - 1);
        assert(step_to(idx, r[j - 1], r[j]));
        let t = choose|t: int|
            0 <= t < successors(idx, r[j - 1]).len() && (#[trigger] successors(idx, r[j - 1])[t]).sig
                == r[j].sig && successors(idx, r[j - 1])[t].hops == r[j].hops;
        lemma_succ_shift(idx, r[j - 1], 0, r[j - 1], 0);
        lemma_expansion_universe(idx, start, r[j - 1], 0, t);
    }
}

/// The first step that took a node with the same signature took it fresh,
/// and no further away.
proof fn lemma_first_visit(idx: Index, start: SpecMethodRef, all_paths: bool, i: nat) -> (i0: nat)
    requires
        !walk_done(walk(idx, start, all_paths, i)),
    ensures
        i0 <= i,
        !walk_done(walk(idx, start, all_paths, i0)),
        spec_signature(taken_node(idx, start, all_paths, i0).sig) == spec_signature(
            taken_node(idx, start, all_paths, i).sig,
        ),
        fresh_at(idx, start, all_paths, i0),
        taken_hops(idx, start, all_paths, i0) <= taken_hops(idx, start, all_paths, i),
    decreases i,
{
    if fresh_at(idx, start, all_paths, i) {
        i
    } else {
        lemma_visited_history(idx, start, all_paths, i);
        let key = spec_signature(taken_node(idx, start, all_paths, i).sig);
        let j = choose|j: nat|
            j < i && !walk_done(walk(idx, start, all_paths, j)) && spec_signature(
                (#[trigger] taken_node(idx, start, all_paths, j)).sig,
            ) == key;
        let i0 = lemma_first_visit(idx, start, all_paths, j);
        lemma_walk_in_hop_order(idx, start, all_paths, j, i);
        i0
    }
}

/// Every node of a chain shorter than what step `k` takes was taken before
/// step `k`, no further away than on the chain.
proof fn lemma_route_prefix(idx: Index, start: SpecMethodRef, all_paths: bool, k: nat, r: Seq<SpecNode>, j: int)
    requires
        idx.wf(),
        signatures_identify(idx, start),
        !walk_done(walk(idx, start, all_paths, k)),
        taken_hops(idx, start, all_paths, k) <= MAX_HOPS,
        is_route(idx, start, all_paths, r),
        r.last().hops < taken_hops(idx, start, all_paths, k),
        0 <= j < r.len(),
    ensures
        exists|i: nat|
            i < k && !walk_done(walk(idx, start, all_paths, i)) && (#[trigger] taken_node(
                idx,
                start,
                all_paths,
                i,
            )).sig == r[j].sig && taken_hops(idx, start, all_paths, i) <= r[j].hops,
    decreases j,
{
    lemma_route_hops(idx, start, all_paths, r, j);
    if j == 0 {
        let s0 = walk(idx, start, all_paths, 0);
        assert(s0.queue[0] == 0);
        assert(taken_node(idx, start, all_paths, 0) == start_node(start));
        if k == 0 {
            assert(false);
        }
        assert(0 < k && !walk_done(walk(idx, start, all_paths, 0)));
    } else {
        lemma_route_prefix(idx, start, all_paths, k, r, j - 1);
        lemma_route_hops(idx, start, all_paths, r, j - 1);
        let i = choose|i: nat|
            i < k && !walk_done(walk(idx, start, all_paths, i)) && (#[trigger] taken_node(
                idx,
                start,
                all_paths,
                i,
            )).sig == r[j - 1].sig && taken_hops(idx, start, all_paths, i) <= r[j - 1].hops;
        let i0 = lemma_first_visit(idx, start, all_paths, i);
        lemma_taken_in_arena(idx, start, all_paths, i0);
        let n = taken_node(idx, start, all_paths, i0);
        assert(n.sig == r[j - 1].sig);
        let s = walk(idx, start, all_paths, i0);
        let (ti, t) = take_next(s);
        assert(t.arena == s.arena && t.visited == s.visited);
        assert(n == t.arena[ti]);
        assert(expands_at(idx, all_paths, t, ti));
        lemma_visit_shape(idx, start, all_paths, t, ti);
        let s1 = walk(idx, start, all_paths, (i0 + 1) as nat);
        assert(s1 == visit(idx, start, all_paths, t, ti));
        let ch = back_nodes(idx, n, ti) + enclosing_nodes(idx, n, ti);
        assert(s1.arena == s.arena + ch);
        assert(step_to(idx, r[j - 1], r[j]));
        let u = choose|u: int|
            0 <= u < successors(idx, r[j - 1]).len() && (#[trigger] successors(idx, r[j - 1])[u]).sig
                == r[j].sig && successors(idx, r[j - 1])[u].hops == r[j].hops;
        lemma_succ_shift(idx, r[j - 1], 0, n, ti);
        let x = ch[u];
        assert(x.sig == r[j].sig);
        assert(x.hops <= r[j].hops);
        let a = s.arena.len() + u;
        assert(s1.arena[a] == x);
        lemma_arena_grows(idx, start, all_paths, (i0 + 1) as nat, k);
        let w = walk(idx, start, all_paths, k);
        assert(w.arena[a] == x);
        lemma_taken_or_pending(idx, start, all_paths, k);
        if pending(w, a) {
            lemma_pending_above(idx, start, all_paths, k, a);
            assert(false);
        } else {
            let i2 = choose|i2: nat|
                i2 < k && !walk_done(walk(idx, start, all_paths, i2)) && (#[trigger] take_next(
                    walk(idx, start, all_paths, i2),
                )).0 == a;
            lemma_taken_in_arena(idx, start, all_paths, i2);
            lemma_arena_grows(idx, start, all_paths, i2, k);
            assert(taken_node(idx, start, all_paths, i2) == x);
            assert(i2 < k && !walk_done(walk(idx, start, all_paths, i2)) && taken_node(
                idx,
                start,
                all_paths,
                i2,
            ).sig == r[j].sig && taken_hops(idx, start, all_paths, i2) <= r[j].hops);
        }
    }
}

/// A node taken fresh, within the hop bound, has the fewest hops of any chain
/// to its method.
proof fn lemma_no_shorter_route(idx: Index, start: SpecMethodRef, all_paths: bool, k: nat, r: Seq<SpecNode>)
    requires
        idx.wf(),
        signatures_identify(idx, start),
        !walk_done(walk(idx, start, all_paths, k)),
        fresh_at(idx, start, all_paths, k),
        taken_hops(idx, start, all_paths, k) <= MAX_HOPS,
        is_route(idx, start, all_paths, r),
        r.last().sig == taken_node(idx, start, all_paths, k).sig,
    ensures
        r.last().hops >= taken_hops(idx, start, all_paths, k),
{
    if r.last().hops < taken_hops(idx, start, all_paths, k) {
        lemma_route_prefix(idx, start, all_paths, k, r, r.len() - 1);
        lemma_visited_history(idx, start, all_paths, k);
        let i = choose|i: nat|
            i < k && !walk_done(walk(idx, start, all_paths, i)) && (#[trigger] taken_node(
                idx,
                start,
                all_paths,
                i,
            )).sig == r[r.len() - 1].sig && taken_hops(idx, start, all_paths, i) <= r[r.len() - 1].hops;
        assert(spec_signature(taken_node(idx, start, all_paths, i).sig) == spec_signature(
            taken_node(idx, start, all_paths, k).sig,
        ));
    }
}

/// Mapping `m` was found at the node step `i` took, fresh and within the hop
/// bound: that method itself public, or the public method it overrides, at
/// that node's hops.
pub open spec fn found_at(idx: Index, start: SpecMethodRef, all_paths: bool, m: SpecMapping, i: nat) -> bool {
    let n = taken_node(idx, start, all_paths, i);
    &&& !walk_done(walk(idx, start, all_paths, i))
    &&& fresh_at(idx, start, all_paths, i)
    &&& taken_hops(idx, start, all_paths, i) <= MAX_HOPS
    &&& m.hops == taken_hops(idx, start, all_paths, i)
    &&& (m == direct_mapping(idx, start, n) || m == override_mapping(
        idx,
        start,
        n,
        idx.spec_public_override(n.sig).unwrap(),
    ))
}

/// Every mapping of the walk after `k` steps was found at a node one of
/// those steps took.
spec fn mappings_found(idx: Index, start: SpecMethodRef, all_paths: bool, k: nat) -> bool {
    forall|t: int| 0 <= t < walk(idx, start, all_paths, k).mappings.len() ==> #[trigger] mapping_found(idx, start, all_paths, k, t)
}

/// Mapping `t` of the walk after `k` steps was found at a node one of those
/// steps took.
spec fn mapping_found(idx: Index, start: SpecMethodRef, all_paths: bool, k: nat, t: int) -> bool {
    exists|i: nat| i < k && #[trigger] found_at(idx, start, all_paths, walk(idx, start, all_paths, k).mappings[t], i)
}

/// Each mapping of the walk was found at a node some earlier step took.
proof fn lemma_mapping_sources(idx: Index, start: SpecMethodRef, all_paths: bool, k: nat)
    ensures
        mappings_found(idx, start, all_paths, k),
    decreases k,
{
    if k == 0 {
        assert(walk(idx, start, all_paths, k).mappings.len() == 0);
    } else {
        let p = (k - 1) as nat;
        lemma_mapping_sources(idx, start, all_paths, p);
        lemma_walk_inv(idx, start, all_paths, p);
        let s = walk(idx, start, all_paths, p);
        let w = walk(idx, start, all_paths, k);
        assert(mappings_found(idx, start, all_paths, p));
        if !walk_done(s) {
            lemma_walk_order_inv(idx, start, all_paths, p);
            lemma_take_order(s, level(idx, start, all_paths, p), start);
        }
        assert forall|u: int| 0 <= u < walk(idx, start, all_paths, k).mappings.len() implies #[trigger] mapping_found(
            idx,
            start,
            all_paths,
            k,
            u,
        ) by {
            let m = w.mappings[u];
            if u < s.mappings.len() && (walk_done(s) || w.mappings[u] == s.mappings[u]) {
                if walk_done(s) {
                    assert(w == s);
                }
                assert(m == s.mappings[u]);
                assert(mapping_found(idx, start, all_paths, p, u));
                let i2 = choose|i2: nat| i2 < p && #[trigger] found_at(idx, start, all_paths, s.mappings[u], i2);
                assert(i2 < k && found_at(idx, start, all_paths, m, i2));
            } else {
                assert(!walk_done(s));
                let (i, t) = take_next(s);
                let n = t.arena[i];
                assert(t.arena == s.arena && t.visited == s.visited && t.mappings == s.mappings);
                assert(n == taken_node(idx, start, all_paths, p));
                assert(w == visit(idx, start, all_paths, t, i));
                let key = spec_signature(n.sig);
                if t.visited.contains(key) || n.hops > MAX_HOPS {
                    assert(w.mappings == s.mappings);
                    assert(false);
                } else {
                    let direct = idx.spec_is_public(n.sig);
                    let over = override_hit(idx, n);
                    let pp = idx.spec_public_override(n.sig).unwrap();
                    let d = if direct {
                        seq![direct_mapping(idx, start, n)]
                    } else {
                        Seq::empty()
                    };
                    let o = if over {
                        seq![override_mapping(idx, start, n, pp)]
                    } else {
                        Seq::empty()
                    };
                    assert(w.mappings == s.mappings + d + o);
                    if u < s.mappings.len() {
                        assert(w.mappings[u] == s.mappings[u]);
                        assert(false);
                    }
                    assert(fresh_at(idx, start, all_paths, p));
                    assert(taken_hops(idx, start, all_paths, p) == n.hops);
                    if direct && u == s.mappings.len() {
                        assert(m == direct_mapping(idx, start, n));
                    } else {
                        assert(m == override_mapping(idx, start, n, pp));
                    }
                    assert(m.hops == n.hops);
                    assert(found_at(idx, start, all_paths, m, p));
                }
            }
        }
        assert(mappings_found(idx, start, all_paths, k));
    }
}

/// Each mapping is reached by a shortest chain: it was found at a node (the
/// public method itself, or the method that overrides it) whose hops, which
/// the mapping carries, are the fewest caller steps of any chain from the
/// traced method to that method, enclosing-class steps being free and no
/// chain going on from a method where the walk stops.
pub proof fn lemma_mappings_shortest(idx: Index, start: SpecMethodRef, all_paths: bool, k: nat, t: int)
    requires
        idx.wf(),
        signatures_identify(idx, start),
        0 <= t < walk(idx, start, all_paths, k).mappings.len(),
    ensures
        exists|i: nat|
            i < k && #[trigger] found_at(idx, start, all_paths, walk(idx, start, all_paths, k).mappings[t], i)
                && forall|r: Seq<SpecNode>|
                #[trigger] is_route(idx, start, all_paths, r) && r.last().sig == taken_node(
                    idx,
                    start,
                    all_paths,
                    i,
                ).sig ==> r.last().hops >= taken_hops(idx, start, all_paths, i),
{
    lemma_mapping_sources(idx, start, all_paths, k);
    assert(mappings_found(idx, start, all_paths, k));
    assert(mapping_found(idx, start, all_paths, k, t));
    let m = walk(idx, start, all_paths, k).mappings[t];
    let i = choose|i: nat| i < k && #[trigger] found_at(idx, start, all_paths, m, i);
    assert forall|r: Seq<SpecNode>|
        #[trigger] is_route(idx, start, all_paths, r) && r.last().sig == taken_node(idx, start, all_paths, i).sig implies r.last().hops
            >= taken_hops(idx, start, all_paths, i) by {
        lemma_no_shorter_route(idx, start, all_paths, i, r);
    }
}

/// Later states of the walk keep the earlier ones' mappings, in order.
proof fn lemma_mappings_grow(idx: Index, start: SpecMethodRef, all_paths: bool, j: nat, k: nat)
    requires
        j <= k,
    ensures
        walk(idx, start, all_paths, j).mappings.len() <= walk(idx, start, all_paths, k).mappings.len(),
        forall|t: int|
            0 <= t < walk(idx, start, all_paths, j).mappings.len() ==> #[trigger] walk(idx, start, all_paths, k).mappings[t]
                == walk(idx, start, all_paths, j).mappings[t],
    decreases k - j,
{
    if j < k {
        let p = (k - 1) as nat;
        lemma_mappings_grow(idx, start, all_paths, j, p);
        let s = walk(idx, start, all_paths, p);
        if !walk_done(s) {
            let (i, t) = take_next(s);
            let n = t.arena[i];
            let r = visit(idx, start, all_paths, t, i);
            let key = spec_signature(n.sig);
            if !t.visited.contains(key) && n.hops <= MAX_HOPS {
                let direct = idx.spec_is_public(n.sig);
                let over = override_hit(idx, n);
                let pp = idx.spec_public_override(n.sig).unwrap();
                let d = if direct {
                    seq![direct_mapping(idx, start, n)]
                } else {
                    Seq::empty()
                };
                let o = if over {
                    seq![override_mapping(idx, start, n, pp)]
                } else {
                    Seq::empty()
                };
                assert(r.mappings == s.mappings + d + o);
                assert forall|u: int| 0 <= u < s.mappings.len() implies #[trigger] r.mappings[u] == s.mappings[u] by {
                    assert((s.mappings + d + o)[u] == s.mappings[u]);
                }
            }
        }
    }
}

/// A node that the walk takes for the first time, within the hop bound,
/// yields each of its mappings, whatever the other: the direct one when its
/// method is itself public, and the one to the public-API method it
/// overrides when that lies in a public namespace. Every later state keeps
/// them.
pub proof fn lemma_hits_recorded(idx: Index, start: SpecMethodRef, all_paths: bool, k: nat, m: nat)
    requires
        !walk_done(walk(idx, start, all_paths, k)),
        fresh_at(idx, start, all_paths, k),
        taken_hops(idx, start, all_paths, k) <= MAX_HOPS,
        k < m,
    ensures
        idx.spec_is_public(taken_node(idx, start, all_paths, k).sig) ==> walk(idx, start, all_paths, m).mappings.contains(
            direct_mapping(idx, start, taken_node(idx, start, all_paths, k)),
        ),
        (idx.spec_public_override(taken_node(idx, start, all_paths, k).sig) is Some
            && spec_is_public_namespace(
            idx.spec_public_override(taken_node(idx, start, all_paths, k).sig).unwrap().owner,
        )) ==> walk(idx, start, all_paths, m).mappings.contains(
            override_mapping(
                idx,
                start,
                taken_node(idx, start, all_paths, k),
                idx.spec_public_override(taken_node(idx, start, all_paths, k).sig).unwrap(),
            ),
        ),
{
    let s = walk(idx, start, all_paths, k);
    let w = walk(idx, start, all_paths, (k + 1) as nat);
    let (i, t) = take_next(s);
    let n = t.arena[i];
    assert(t.arena == s.arena && t.visited == s.visited && t.mappings == s.mappings);
    assert(n == taken_node(idx, start, all_paths, k));
    assert(w == visit(idx, start, all_paths, t, i));
    let direct = idx.spec_is_public(n.sig);
    let over = override_hit(idx, n);
    let pp = idx.spec_public_override(n.sig).unwrap();
    let d = if direct {
        seq![direct_mapping(idx, start, n)]
    } else {
        Seq::empty()
    };
    let o = if over {
        seq![override_mapping(idx, start, n, pp)]
    } else {
        Seq::empty()
    };
    assert(w.mappings == s.mappings + d + o);
    lemma_mappings_grow(idx, start, all_paths, (k + 1) as nat, m);
    let wm = walk(idx, start, all_paths, m);
    if direct {
        let u = s.mappings.len() as int;
        assert(w.mappings[u] == direct_mapping(idx, start, n));
        assert(wm.mappings[u] == w.mappings[u]);
    }
    if over {
        let u = (s.mappings.len() + d.len()) as int;
        assert(w.mappings[u] == override_mapping(idx, start, n, pp));
        assert(wm.mappings[u] == w.mappings[u]);
    }
}

/// The mapping for a direct hit on `sig` at `hops`.
fn direct_mapping_exec(idx: &Index, aidl: &String, sig: &MethodRef, hops: usize) -> (m: Mapping)
    requires
        idx.wf(),
    ensures
        m@ == (SpecMapping {
            aidl: aidl@,
            public_class: replace_char(sig@.owner, '/', '.'),
            method: sig@.name,
            desc: sig@.desc,
            hops,
            jar: idx.spec_jar(sig@.owner),
        }),
{
    let v = chars_of(sig.owner.as_str());
    assert(v@.subrange(0, v@.len() as int) =~= v@);
    Mapping {
        aidl: aidl.clone(),
        public_class: replace_char_at(&v, 0, v.len(), '/', '.'),
        method: sig.name.clone(),
        desc: sig.desc.clone(),
        hops,
        jar: idx.jar(sig.owner.as_str()).to_owned(),
    }
}

/// The mapping for an override hit on `sig` at `hops`, to `p`.
fn override_mapping_exec(idx: &Index, aidl: &String, sig: &MethodRef, p: &MethodRef, hops: usize) -> (m: Mapping)
    requires
        idx.wf(),
    ensures
        m@ == (SpecMapping {
            aidl: aidl@,
            public_class: replace_char(p@.owner, '/', '.'),
            method: p@.name,
            desc: p@.desc,
            hops,
            jar: idx.spec_jar(sig@.owner),
        }),
{
    let v = chars_of(p.owner.as_str());
    assert(v@.subrange(0, v@.len() as int) =~= v@);
    Mapping {
        aidl: aidl.clone(),
        public_class: replace_char_at(&v, 0, v.len(), '/', '.'),
        method: p.name.clone(),
        desc: p.desc.clone(),
        hops,
        jar: idx.jar(sig.owner.as_str()).to_owned(),
    }
}

/// The walk state that the trace's variables hold.
spec fn walk_view(
    arena: Seq<Node>,
    front: Option<usize>,
    queue: Seq<usize>,
    head: usize,
    visited: Set<Seq<char>>,
    mappings: Seq<Mapping>,
    first_path: Option<String>,
    deepest: usize,
) -> WalkState {
    WalkState {
        arena: nodes_view(arena),
        front: match front {
            Some(f) => Some(f as int),
            None => None,
        },
        queue: queue_view(queue),
        head: head as int,
        visited,
        mappings: mappings_view(mappings),
        first_path: match first_path {
            Some(p) => Some(p@),
            None => None,
        },
        deepest: deepest as int,
    }
}

/// Trace one AIDL method back to the public API. With `all_paths`, keep
/// exploring past a public hit to find every public entrypoint; otherwise stop
/// each branch at the first hit. Nodes are taken in order of their hops: an
/// inner class's bridge to its enclosing class costs nothing and goes to the
/// front of the queue.
#[verifier::rlimit(60)]
pub fn trace(idx: &Index, start: &MethodRef, all_paths: bool) -> (r: Trace)
    requires
        idx.wf(),
    ensures
        exists|k: nat|
            walk_done(#[trigger] walk(*idx, start@, all_paths, k)) && walk_outcome(
                *idx,
                walk(*idx, start@, all_paths, k),
            ) == (mappings_view(r.mappings@), r.path@, r.mapped),
{
    let aidl = start.fqn();
    let mut arena: Vec<Node> = Vec::new();
    arena.push(Node { sig: start.duplicate(), hops: 0, parent: None });
    let mut front: Option<usize> = None;
    let mut queue: Vec<usize> = Vec::new();
    queue.push(0);
    let mut head: usize = 0;
    let mut visited = StringHashSet::new();
    let mut mappings: Vec<Mapping> = Vec::new();
    let mut first_path: Option<String> = None;
    let mut deepest: usize = 0;
    let ghost mut k: nat = 0;
    let ghost pool = key_pool(walk_owners(*idx, start@), walk_members(*idx, start@)).to_set();
    proof {
        vstd::seq_lib::seq_to_set_is_finite(key_pool(walk_owners(*idx, start@), walk_members(*idx, start@)));
        let av = nodes_view(arena@);
        assert(mappings_view(mappings@) =~= Seq::<SpecMapping>::empty());
        assert(queue_view(queue@) =~= seq![0int]);
        assert(av =~= seq![start_node(start@)]);
        assert(visited@ =~= Set::<Seq<char>>::empty());
        assert(walk_owners(*idx, start@)[0] == start@.owner);
        assert(walk_members(*idx, start@)[0] == (start@.name, start@.desc));
        assert(in_universe(*idx, start@, av[0].sig));
    }
    while front.is_some() || head < queue.len()
        invariant
            idx.wf(),
            aidl@ == spec_fqn(start@),
            pool == key_pool(walk_owners(*idx, start@), walk_members(*idx, start@)).to_set(),
            pool.finite(),
            visited@.subset_of(pool),
            visited@.finite(),
            visited@.len() <= pool.len(),
            walk_view(arena@, front, queue@, head, visited@, mappings@, first_path, deepest) == walk(
                *idx,
                start@,
                all_paths,
                k,
            ),
            head <= queue@.len(),
            forall|j: int| 0 <= j < queue@.len() ==> #[trigger] queue@[j] < arena@.len(),
            front matches Some(f) ==> f < arena@.len(),
            deepest < arena@.len(),
            forall|j: int| 0 <= j < arena@.len() ==> in_universe(*idx, start@, #[trigger] nodes_view(arena@)[j].sig),
            forall|j: int| 0 <= j < arena@.len() ==> #[trigger] nodes_view(arena@)[j] == arena@[j]@,
        decreases pool.len() - visited@.len(), (if front is Some {
            1int
        } else {
            0int
        }) + queue@.len() - head,
    {
        let ghost s0 = walk(*idx, start@, all_paths, k);
        let ni: usize;
        match front {
            Some(f) => {
                ni = f;
                front = None;
            },
            None => {
                ni = queue[head];
                head = head + 1;
            },
        }
        let ghost t = take_next(s0).1;
        proof {
            assert(!walk_done(s0));
            assert(take_next(s0).0 == ni as int);
            assert(walk_view(arena@, front, queue@, head, visited@, mappings@, first_path, deepest) == t);
            k = k + 1;
            assert(walk(*idx, start@, all_paths, k) == visit(*idx, start@, all_paths, t, ni as int));
        }
        let ghost av = nodes_view(arena@);
        let sig = arena[ni].sig.duplicate();
        let hops = arena[ni].hops;
        let key = sig.signature();
        let ghost v0 = visited@;
        let fresh = visited.insert(key);
        proof {
            assert(av[ni as int] == arena@[ni as int]@);
            assert(spec_signature(av[ni as int].sig) == key@);
            if fresh {
                lemma_key_pool(walk_owners(*idx, start@), walk_members(*idx, start@), av[ni as int].sig);
                assert(visited@.subset_of(pool));
                vstd::set_lib::lemma_len_subset(visited@, pool);
            } else {
                assert(visited@ =~= v0);
            }
        }
        if !fresh {
            continue;
        }
        if hops > MAX_HOPS {
            continue;
        }
        // A node within the bound, seen for the first time.
        if hops >= arena[deepest].hops {
            deepest = ni;
        }
        let ghost t_deepest = t.deepest;
        let mut reached = false;
        let ghost fp0 = first_path;
        if idx.is_public(&sig) {
            mappings.push(direct_mapping_exec(idx, &aidl, &sig, hops));
            if first_path.is_none() {
                first_path = Some(render_path_exec(idx, &arena, ni));
            }
            reached = true;
        }
        let ovr = idx.public_override(&sig);
        match &ovr {
            Some(p) => {
                if is_public_namespace(p.owner.as_str()) {
                    mappings.push(override_mapping_exec(idx, &aidl, &sig, p, hops));
                    if first_path.is_none() {
                        let mut path = render_path_exec(idx, &arena, ni);
                        append_str(&mut path, "      -> [VIRTUAL] ");
                        let f = p.fqn();
                        append_str(&mut path, f.as_str());
                        append_str(&mut path, "\n");
                        first_path = Some(path);
                    }
                    reached = true;
                }
            },
            None => {},
        }
        let ghost s1 = walk_view(arena@, front, queue@, head, visited@, mappings@, first_path, deepest);
        proof {
            let n = av[ni as int];
            let direct = idx.spec_is_public(n.sig);
            let over = override_hit(*idx, n);
            let p = idx.spec_public_override(n.sig).unwrap();
            let d = if direct {
                seq![direct_mapping(*idx, start@, n)]
            } else {
                Seq::empty()
            };
            let o = if over {
                seq![override_mapping(*idx, start@, n, p)]
            } else {
                Seq::empty()
            };
            assert(reached == (direct || over));
            assert(mappings_view(mappings@) =~= t.mappings + d + o);
            assert(t.arena[t.deepest] == av[t_deepest]);
        }
        if !reached || all_paths {
            let ghost q_old = queue@;
            expand_node(idx, &mut arena, &mut queue, &mut front, ni, &sig, hops);
            let alen = arena.len();
            proof {
                let n = av[ni as int];
                let back = back_nodes(*idx, n, ni as int);
                let en = enclosing_nodes(*idx, n, ni as int);
                let a2 = nodes_view(arena@);
                assert(a2 == av + back + en);
                assert forall|j: int| 0 <= j < arena@.len() implies #[trigger] nodes_view(arena@)[j]
                    == arena@[j]@ by {}
                assert forall|j: int| 0 <= j < arena@.len() implies in_universe(
                    *idx,
                    start@,
                    #[trigger] nodes_view(arena@)[j].sig,
                ) by {
                    if j >= av.len() {
                        assert(a2[j] == (back + en)[j - av.len()]);
                        lemma_expansion_universe(*idx, start@, n, ni as int, j - av.len());
                    } else {
                        assert(a2[j] == av[j]);
                    }
                }
                assert forall|j: int| 0 <= j < queue@.len() implies #[trigger] queue@[j] < arena@.len() by {
                    let pq = positions(av.len() as int, back.len() as int);
                    assert(queue_view(queue@) == queue_view(q_old) + pq);
                    assert(queue_view(queue@).len() == queue@.len());
                    assert(queue_view(q_old).len() == q_old.len());
                    assert(queue_view(queue@)[j] == queue@[j] as int);
                    if j >= q_old.len() {
                        assert(queue_view(queue@)[j] == pq[j - q_old.len()]);
                        assert(pq[j - q_old.len()] == av.len() + (j - q_old.len()));
                    } else {
                        assert(queue_view(queue@)[j] == queue_view(q_old)[j]);
                        assert(queue_view(q_old)[j] == q_old[j] as int);
                    }
                }
                let pq = positions(av.len() as int, back.len() as int);
                assert(queue_view(queue@) == queue_view(q_old) + pq);
                assert(queue_view(queue@).len() == queue@.len());
                assert(queue_view(q_old).len() == q_old.len());
                assert(s1.arena == av);
                assert(s1.queue == queue_view(q_old));
                assert(a2.len() == arena@.len());
                let e = expand(*idx, s1, ni as int);
                let w = walk_view(arena@, front, queue@, head, visited@, mappings@, first_path, deepest);
                assert(w.arena == e.arena);
                assert(w.queue == e.queue);
                if en.len() > 0 {
                    assert(av.len() + back.len() < alen);
                    assert(front == Some((av.len() + back.len()) as usize));
                }
                assert(w.front == e.front);
                assert(w.head == e.head);
                assert(w.visited == e.visited);
                assert(w.mappings == e.mappings);
                assert(w.first_path == e.first_path);
                assert(w.deepest == e.deepest);
                assert(w == e);
            }
        }
    }
    let ghost sk = walk(*idx, start@, all_paths, k);
    let mapped = mappings.len() > 0;
    let path = if mapped {
        match first_path {
            Some(p) => p,
            None => String::new(),
        }
    } else {
        let mut p = render_path_exec(idx, &arena, deepest);
        append_str(&mut p, "      [DEAD_END]\n");
        p
    };
    let r = Trace { mappings, path, mapped };
    assert(walk_done(sk));
    assert(walk_outcome(*idx, sk) == (mappings_view(r.mappings@), r.path@, r.mapped));
    r
}

} // verus!
