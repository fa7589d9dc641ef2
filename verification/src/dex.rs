//! The DEX front-end: decode `dexdump -d` text into a class graph (name,
//! superclass, interfaces, access flags) plus, per method, the methods it
//! invokes. Only what the reverse tracer needs is modelled.

use vstd::prelude::*;
use crate::text::{
    append_str, chars_of, find_char, find_char_at, find_pat, find_pat_at, find_ws_at,
    find_ws_from, lemma_text_lines_nonempty, push_char, replace_char, replace_char_at, rfind_char,
    rfind_char_at, starts_with, starts_with_at, string_of, strings_view, text_lines, trim, trim_at, trim_end,
    trim_end_at, trim_start, trim_start_at,
};

verus! {

/// `ACC_INTERFACE`: set on interface classes, so an AIDL interface is told apart
/// from its `$Stub` / `$Stub$Proxy` implementations.
pub const ACC_INTERFACE: u32 = 0x0200;

/// `ACC_SYNTHETIC`: set on compiler-generated classes, such as the classes D8
/// desugars lambdas and method references into.
pub const ACC_SYNTHETIC: u32 = 0x1000;

/// A method reference in internal (slashed) form: `owner` = `com/foo/Bar`.
#[derive(Debug, Clone, PartialEq, Eq, Hash)]
pub struct MethodRef {
    pub owner: String,
    pub name: String,
    pub desc: String,
}

/// What a [`MethodRef`] denotes: its three strings.
pub struct SpecMethodRef {
    pub owner: Seq<char>,
    pub name: Seq<char>,
    pub desc: Seq<char>,
}

impl View for MethodRef {
    type V = SpecMethodRef;

    open spec fn view(&self) -> SpecMethodRef {
        SpecMethodRef { owner: self.owner@, name: self.name@, desc: self.desc@ }
    }
}

/// A method of a class.
#[derive(Debug, Clone)]
pub struct Method {
    pub name: String,
    pub desc: String,
    /// methods this one invokes (declared targets, in call order; deduped).
    pub invokes: Vec<MethodRef>,
}

/// What a [`Method`] denotes.
pub struct SpecMethod {
    pub name: Seq<char>,
    pub desc: Seq<char>,
    pub invokes: Seq<SpecMethodRef>,
}

impl View for Method {
    type V = SpecMethod;

    open spec fn view(&self) -> SpecMethod {
        SpecMethod { name: self.name@, desc: self.desc@, invokes: refs_view(self.invokes@) }
    }
}

/// A decoded class.
#[derive(Debug, Clone)]
pub struct Class {
    /// internal (slashed) name, e.g. `com/foo/Bar`.
    pub name: String,
    pub super_name: Option<String>,
    pub interfaces: Vec<String>,
    pub access: u32,
    pub methods: Vec<Method>,
    /// the jar/apk this class was read from.
    pub jar: String,
}

/// What a [`Class`] denotes.
pub struct SpecClass {
    pub name: Seq<char>,
    pub super_name: Option<Seq<char>>,
    pub interfaces: Seq<Seq<char>>,
    pub access: u32,
    pub methods: Seq<SpecMethod>,
    pub jar: Seq<char>,
}

impl View for Class {
    type V = SpecClass;

    open spec fn view(&self) -> SpecClass {
        SpecClass {
            name: self.name@,
            super_name: opt_string_view(self.super_name),
            interfaces: strings_view(self.interfaces@),
            access: self.access,
            methods: methods_view(self.methods@),
            jar: self.jar@,
        }
    }
}

/// The views of a sequence of method references.
pub open spec fn refs_view(s: Seq<MethodRef>) -> Seq<SpecMethodRef> {
    s.map_values(|r: MethodRef| r@)
}

/// The views of a sequence of methods.
pub open spec fn methods_view(s: Seq<Method>) -> Seq<SpecMethod> {
    s.map_values(|m: Method| m@)
}

/// The views of a sequence of classes.
pub open spec fn classes_view(s: Seq<Class>) -> Seq<SpecClass> {
    s.map_values(|c: Class| c@)
}

/// The view of an optional string.
pub open spec fn opt_string_view(s: Option<String>) -> Option<Seq<char>> {
    match s {
        Some(x) => Some(x@),
        None => None,
    }
}

// ---------------------------------------------------------------------------
// Specifications of the decoders
// ---------------------------------------------------------------------------

/// `owner.name+desc`: the identity of a method across the call graph.
pub open spec fn spec_signature(m: SpecMethodRef) -> Seq<char> {
    m.owner + seq!['.'] + m.name + m.desc
}

/// `com.foo.Bar.name`: the dotted name of a method, for display.
pub open spec fn spec_fqn(m: SpecMethodRef) -> Seq<char> {
    replace_char(m.owner, '/', '.') + seq!['.'] + m.name
}

/// Text between the first pair of single quotes (to the end when the second is
/// missing; empty when there is no quote).
pub open spec fn spec_quoted(s: Seq<char>) -> Seq<char> {
    match find_char(s, '\'') {
        None => Seq::<char>::empty(),
        Some(i) => {
            let r = s.skip(i + 1);
            match find_char(r, '\'') {
                None => r,
                Some(j) => r.take(j),
            }
        },
    }
}

/// `'Lcom/foo/Bar;'` (already unquoted) to `com/foo/Bar`: the trimmed text,
/// without a leading `L` and trailing `;` when it has both.
pub open spec fn spec_internal(s: Seq<char>) -> Seq<char> {
    let d = trim(s);
    if d.len() >= 2 && d[0] == 'L' && d.last() == ';' {
        d.subrange(1, d.len() - 1)
    } else {
        d
    }
}

/// An ASCII hexadecimal digit.
pub open spec fn is_hex_digit(c: char) -> bool {
    let u = c as u32;
    ||| 0x30 <= u <= 0x39
    ||| 0x41 <= u <= 0x46
    ||| 0x61 <= u <= 0x66
}

/// Every character is a hexadecimal digit.
pub open spec fn all_hex(d: Seq<char>) -> bool {
    forall|i: int| 0 <= i < d.len() ==> is_hex_digit(#[trigger] d[i])
}

/// The value of a hexadecimal digit.
pub open spec fn hex_digit_value(c: char) -> nat {
    let u = c as u32;
    if 0x30 <= u <= 0x39 {
        (u - 0x30) as nat
    } else if 0x41 <= u <= 0x46 {
        (u - 0x41 + 10) as nat
    } else {
        (u - 0x61 + 10) as nat
    }
}

/// The value of a string of hexadecimal digits.
pub open spec fn hex_value(s: Seq<char>) -> nat
    decreases s.len(),
{
    if s.len() == 0 {
        0
    } else {
        hex_value(s.drop_last()) * 16 + hex_digit_value(s.last())
    }
}

/// `u32::from_str_radix(h, 16).ok()`: an optional `+`, then one or more hex
/// digits whose value fits in 32 bits.
pub open spec fn spec_parse_hex_u32(h: Seq<char>) -> Option<u32> {
    let d = if h.len() > 0 && h[0] == '+' { h.skip(1) } else { h };
    if d.len() > 0 && all_hex(d) && hex_value(d) <= u32::MAX {
        Some(hex_value(d) as u32)
    } else {
        None
    }
}

/// The hex value after a `:` (e.g. `Access flags : 0x0601 (...)`): the first
/// whitespace-separated token after the first colon (or of the whole text when
/// there is none), read as `0x` and hex digits; 0 when it is not that.
pub open spec fn spec_hex_after_colon(s: Seq<char>) -> u32 {
    let after = trim(
        match find_char(s, ':') {
            Some(i) => s.skip(i + 1),
            None => s,
        },
    );
    let tok = match find_ws_from(after, 0) {
        Some(k) => after.take(k),
        None => after,
    };
    if starts_with(tok, seq!['0', 'x']) {
        match spec_parse_hex_u32(tok.skip(2)) {
            Some(v) => v,
            None => 0,
        }
    } else {
        0
    }
}

/// `Lcom/foo/Bar;.name:desc` to a method reference: after a leading `L`, the
/// owner runs to the first `;.`, the name from there to the next `:`, the
/// descriptor is the rest.
pub open spec fn spec_parse_method_ref(s: Seq<char>) -> Option<SpecMethodRef> {
    if s.len() == 0 || s[0] != 'L' {
        None
    } else {
        let s1 = s.skip(1);
        match find_pat(s1, seq![';', '.']) {
            None => None,
            Some(k) => {
                let rest = s1.skip(k + 2);
                match find_char(rest, ':') {
                    None => None,
                    Some(m) => Some(
                        SpecMethodRef { owner: s1.take(k), name: rest.take(m), desc: rest.skip(m + 1) },
                    ),
                }
            },
        }
    }
}

/// The callee of an `invoke-*` instruction body, else `None`:
/// `0006: invoke-interface {v0}, Lcom/foo/IBar;.baz:(I)V // method@123`.
/// After the first `:` the instruction must start with `invoke-`; the method
/// reference is its last comma-separated operand, cut before any ` // `.
pub open spec fn spec_invoke_target(body: Seq<char>) -> Option<SpecMethodRef> {
    match find_char(body, ':') {
        None => None,
        Some(i) => {
            let after = trim_start(body.skip(i + 1));
            if !starts_with(after, "invoke-"@) {
                None
            } else {
                match rfind_char(after, ',') {
                    None => None,
                    Some(j) => {
                        let r = trim(after.skip(j + 1));
                        let r2 = match find_pat(r, " // "@) {
                            Some(k) => r.take(k),
                            None => r,
                        };
                        spec_parse_method_ref(trim(r2))
                    },
                }
            }
        },
    }
}

/// Which subsection of a class body the decoder is inside.
#[derive(Clone, Copy, PartialEq, Eq, Structural)]
pub enum Sec {
    Head,
    Interfaces,
    Fields,
    Methods,
}

/// The decoder's state between two lines.
pub struct ParseState {
    pub classes: Seq<SpecClass>,
    pub cur: Option<SpecClass>,
    pub sec: Sec,
    pub pending: Option<Seq<char>>,
}

/// The state before the first line.
pub open spec fn initial_state() -> ParseState {
    ParseState { classes: Seq::empty(), cur: None, sec: Sec::Head, pending: None }
}

/// A class as its `Class descriptor` line opens it.
pub open spec fn new_class(name: Seq<char>) -> SpecClass {
    SpecClass {
        name,
        super_name: None,
        interfaces: Seq::empty(),
        access: 0,
        methods: Seq::empty(),
        jar: Seq::empty(),
    }
}

/// The finished classes once the open one (if any) is closed.
pub open spec fn close_class(classes: Seq<SpecClass>, cur: Option<SpecClass>) -> Seq<SpecClass> {
    match cur {
        Some(c) => classes.push(c),
        None => classes,
    }
}

/// One line of `dexdump -d` output. `Class descriptor` opens a class;
/// `Access flags`, `Superclass`, and the section headers set what the open
/// class's next lines mean; in `Interfaces` a `#n : 'L...;'` line adds an
/// interface; in the methods sections a `name` then a `type` line declares a
/// method, and a disassembly line (`...| <n>: invoke-* ...`) adds its callee,
/// once, to the method declared last.
pub open spec fn parse_line(st: ParseState, raw: Seq<char>) -> ParseState {
    let line = trim_end(raw);
    let t = trim_start(line);
    if starts_with(t, "Class descriptor"@) {
        ParseState {
            classes: close_class(st.classes, st.cur),
            cur: Some(new_class(spec_internal(spec_quoted(t.skip("Class descriptor"@.len() as int))))),
            sec: Sec::Head,
            pending: None,
        }
    } else {
        match st.cur {
            None => st,
            Some(c) => class_line(st, c, line, t),
        }
    }
}

/// A line inside the open class `c`.
pub open spec fn class_line(st: ParseState, c: SpecClass, line: Seq<char>, t: Seq<char>) -> ParseState {
    if starts_with(t, "Access flags"@) {
        ParseState {
            cur: Some(
                SpecClass { access: spec_hex_after_colon(t.skip("Access flags"@.len() as int)), ..c },
            ),
            ..st
        }
    } else if starts_with(t, "Superclass"@) {
        ParseState {
            cur: Some(
                SpecClass {
                    super_name: Some(spec_internal(spec_quoted(t.skip("Superclass"@.len() as int)))),
                    ..c
                },
            ),
            ..st
        }
    } else if starts_with(t, "Interfaces"@) {
        ParseState { sec: Sec::Interfaces, ..st }
    } else if starts_with(t, "Static fields"@) || starts_with(t, "Instance fields"@) {
        ParseState { sec: Sec::Fields, ..st }
    } else if starts_with(t, "Direct methods"@) || starts_with(t, "Virtual methods"@) {
        ParseState { sec: Sec::Methods, ..st }
    } else {
        match st.sec {
            Sec::Interfaces => if starts_with(t, seq!['#']) && find_char(t, '\'') is Some {
                ParseState {
                    cur: Some(
                        SpecClass {
                            interfaces: c.interfaces.push(spec_internal(spec_quoted(t))),
                            ..c
                        },
                    ),
                    ..st
                }
            } else {
                st
            },
            Sec::Methods => method_line(st, c, line, t),
            _ => st,
        }
    }
}

/// A line in a methods section of the open class `c`.
pub open spec fn method_line(st: ParseState, c: SpecClass, line: Seq<char>, t: Seq<char>) -> ParseState {
    if starts_with(t, "name"@) {
        ParseState { pending: Some(spec_quoted(t.skip("name"@.len() as int))), ..st }
    } else if starts_with(t, "type"@) {
        match st.pending {
            Some(n) => ParseState {
                cur: Some(
                    SpecClass {
                        methods: c.methods.push(
                            SpecMethod {
                                name: n,
                                desc: spec_quoted(t.skip("type"@.len() as int)),
                                invokes: Seq::empty(),
                            },
                        ),
                        ..c
                    },
                ),
                pending: None,
                ..st
            },
            None => st,
        }
    } else {
        match find_char(line, '|') {
            None => st,
            Some(i) => match spec_invoke_target(trim_start(line.skip(i + 1))) {
                None => st,
                Some(target) => if c.methods.len() > 0 && !c.methods.last().invokes.contains(target) {
                    let m = c.methods.last();
                    ParseState {
                        cur: Some(
                            SpecClass {
                                methods: c.methods.update(
                                    c.methods.len() - 1,
                                    SpecMethod { invokes: m.invokes.push(target), ..m },
                                ),
                                ..c
                            },
                        ),
                        ..st
                    }
                } else {
                    st
                },
            },
        }
    }
}

/// The state after the given lines, in order.
pub open spec fn parse_lines(lines: Seq<Seq<char>>) -> ParseState {
    lines.fold_left(initial_state(), |st: ParseState, l: Seq<char>| parse_line(st, l))
}

/// The classes that `dexdump -d` text describes, in order.
pub open spec fn spec_parse(text: Seq<char>) -> Seq<SpecClass> {
    let st = parse_lines(text_lines(text));
    close_class(st.classes, st.cur)
}

/// Decoding one more line after `lines` is one more step of the decoder.
pub proof fn lemma_parse_lines_push(lines: Seq<Seq<char>>, l: Seq<char>)
    ensures
        parse_lines(lines.push(l)) == parse_line(parse_lines(lines), l),
{
    assert(lines.push(l).drop_last() =~= lines);
}

/// Each method of `c` lists each callee once.
pub open spec fn invokes_unique(c: SpecClass) -> bool {
    forall|j: int| 0 <= j < c.methods.len() ==> (#[trigger] c.methods[j]).invokes.no_duplicates()
}

/// Every class of the state, finished or open, lists each callee once per
/// method.
spec fn state_invokes_unique(st: ParseState) -> bool {
    &&& forall|k: int| 0 <= k < st.classes.len() ==> invokes_unique(#[trigger] st.classes[k])
    &&& st.cur matches Some(c) ==> invokes_unique(c)
}

/// Decoding a line keeps each method's callees unique.
proof fn lemma_parse_line_unique(st: ParseState, raw: Seq<char>)
    requires
        state_invokes_unique(st),
    ensures
        state_invokes_unique(parse_line(st, raw)),
{
    let line = trim_end(raw);
    let t = trim_start(line);
    if starts_with(t, "Class descriptor"@) {
        let cs = close_class(st.classes, st.cur);
        assert forall|k: int| 0 <= k < cs.len() implies invokes_unique(#[trigger] cs[k]) by {
            if k < st.classes.len() {
                assert(cs[k] == st.classes[k]);
            }
        }
    } else if let Some(c) = st.cur {
        let st2 = class_line(st, c, line, t);
        if st2.cur != st.cur {
            let c2 = st2.cur.unwrap();
            assert forall|j: int| 0 <= j < c2.methods.len() implies (#[trigger] c2.methods[j]).invokes.no_duplicates() by {
                if j < c.methods.len() {
                    assert(c.methods[j].invokes.no_duplicates());
                }
                if c2.methods.len() == c.methods.len() && j == c.methods.len() - 1 && c2.methods[j] != c.methods[j] {
                    let m = c.methods.last();
                    assert(m.invokes.no_duplicates());
                    let target = c2.methods[j].invokes.last();
                    assert(!m.invokes.contains(target));
                    let inv = c2.methods[j].invokes;
                    assert(inv == m.invokes.push(target));
                    assert forall|x: int, y: int| 0 <= x < inv.len() && 0 <= y < inv.len() && x != y implies inv[x] != inv[y] by {
                        if x < m.invokes.len() && y < m.invokes.len() {
                        } else if x == m.invokes.len() {
                            assert(m.invokes[y] == inv[y]);
                        } else {
                            assert(m.invokes[x] == inv[x]);
                        }
                    }
                }
            }
        }
    }
}

/// Decoding lines keeps each method's callees unique.
proof fn lemma_parse_lines_unique(lines: Seq<Seq<char>>)
    ensures
        state_invokes_unique(parse_lines(lines)),
    decreases lines.len(),
{
    if lines.len() == 0 {
        assert(parse_lines(lines) == initial_state());
    } else {
        lemma_parse_lines_unique(lines.drop_last());
        lemma_parse_lines_push(lines.drop_last(), lines.last());
        assert(lines.drop_last().push(lines.last()) =~= lines);
        lemma_parse_line_unique(parse_lines(lines.drop_last()), lines.last());
    }
}

/// Each decoded method lists each callee once.
pub proof fn lemma_parse_invokes_unique(text: Seq<char>)
    ensures
        forall|k: int| 0 <= k < spec_parse(text).len() ==> invokes_unique(#[trigger] spec_parse(text)[k]),
{
    let st = parse_lines(text_lines(text));
    lemma_parse_lines_unique(text_lines(text));
    let cs = spec_parse(text);
    assert forall|k: int| 0 <= k < cs.len() implies invokes_unique(#[trigger] cs[k]) by {
        if k < st.classes.len() {
            assert(cs[k] == st.classes[k]);
        }
    }
}

/// `c` does not occur in `s`.
pub open spec fn lacks(s: Seq<char>, c: char) -> bool {
    forall|q: int| 0 <= q < s.len() ==> s[q] != c
}

/// No character of `s` is whitespace.
pub open spec fn no_whitespace(s: Seq<char>) -> bool {
    forall|q: int| 0 <= q < s.len() ==> !crate::text::is_ws(s[q])
}

/// The first `c` of `s` is at `i`.
proof fn lemma_find_char_is(s: Seq<char>, c: char, i: int)
    requires
        0 <= i < s.len(),
        s[i] == c,
        forall|q: int| 0 <= q < i ==> s[q] != c,
    ensures
        find_char(s, c) == Some(i),
{
    crate::text::lemma_find_char_from(s, c, 0);
}

/// The last `c` of `s` is at `i`.
proof fn lemma_rfind_char_is(s: Seq<char>, c: char, i: int)
    requires
        0 <= i < s.len(),
        s[i] == c,
        forall|q: int| i < q < s.len() ==> s[q] != c,
    ensures
        rfind_char(s, c) == Some(i),
{
    crate::text::lemma_rfind_char_before(s, c, s.len() as int);
}

/// The first occurrence of `p` at or after `from` is at `i`.
proof fn lemma_find_pat_from_is(s: Seq<char>, p: Seq<char>, from: int, i: int)
    requires
        0 <= from <= i,
        crate::text::occurs_at(s, p, i),
        forall|q: int| from <= q < i ==> !crate::text::occurs_at(s, p, q),
    ensures
        crate::text::find_pat_from(s, p, from) == Some(i),
    decreases i - from,
{
    if from < i {
        lemma_find_pat_from_is(s, p, from + 1, i);
    }
}

/// A pattern whose first character is not in `s` does not occur from `from`.
proof fn lemma_find_pat_from_none(s: Seq<char>, p: Seq<char>, from: int)
    requires
        0 <= from,
        p.len() > 0,
        lacks(s, p[0]),
    ensures
        crate::text::find_pat_from(s, p, from) is None,
    decreases s.len() + 1 - from,
{
    if from + p.len() <= s.len() {
        assert(s.subrange(from, from + p.len())[0] == s[from]);
        lemma_find_pat_from_none(s, p, from + 1);
    }
}

/// Trimming the end of `x + y` keeps `x` when `y` holds some non-whitespace.
proof fn lemma_trim_end_suffix(x: Seq<char>, y: Seq<char>, w: int)
    requires
        0 <= w < y.len(),
        !crate::text::is_ws(y[w]),
    ensures
        trim_end(x + y) == x + trim_end(y),
        trim_end(y).len() > w,
        trim_end(y).len() <= y.len(),
        trim_end(y) == y.take(trim_end(y).len() as int),
    decreases y.len(),
{
    if crate::text::is_ws(y.last()) {
        assert((x + y).drop_last() =~= x + y.drop_last());
        assert((x + y).last() == y.last());
        lemma_trim_end_suffix(x, y.drop_last(), w);
        assert(y.drop_last().take(trim_end(y.drop_last()).len() as int) =~= y.take(
            trim_end(y.drop_last()).len() as int,
        ));
    } else {
        assert((x + y).last() == y.last());
        assert(y.take(y.len() as int) =~= y);
    }
}

/// Trimming the end of a text that ends in non-whitespace leaves it.
proof fn lemma_trim_end_id(x: Seq<char>)
    requires
        x.len() > 0,
        !crate::text::is_ws(x.last()),
    ensures
        trim_end(x) == x,
{
}

/// The method reference `L<owner>;.<name>:<desc>`.
pub open spec fn method_ref_text(owner: Seq<char>, name: Seq<char>, desc: Seq<char>) -> Seq<char> {
    seq!['L'] + owner + seq![';', '.'] + name + seq![':'] + desc
}

/// A method reference reads back as its owner, name and descriptor when the
/// owner holds no `;` and the name no `:`.
proof fn lemma_parse_method_ref_text(owner: Seq<char>, name: Seq<char>, desc: Seq<char>)
    requires
        lacks(owner, ';'),
        lacks(name, ':'),
    ensures
        spec_parse_method_ref(method_ref_text(owner, name, desc)) == Some(
            SpecMethodRef { owner, name, desc },
        ),
{
    let s = method_ref_text(owner, name, desc);
    let s1 = s.skip(1);
    assert(s1 =~= owner + seq![';', '.'] + name + seq![':'] + desc);
    let pat = seq![';', '.'];
    assert(crate::text::occurs_at(s1, pat, owner.len() as int)) by {
        assert(s1.subrange(owner.len() as int, owner.len() + 2int) =~= pat);
    }
    assert forall|q: int| 0 <= q < owner.len() implies !crate::text::occurs_at(s1, pat, q) by {
        if crate::text::occurs_at(s1, pat, q) {
            assert(s1.subrange(q, q + 2)[0] == s1[q]);
            assert(s1[q] == owner[q]);
        }
    }
    lemma_find_pat_from_is(s1, pat, 0, owner.len() as int);
    let rest = s1.skip(owner.len() + 2int);
    assert(rest =~= name + seq![':'] + desc);
    assert forall|q: int| 0 <= q < name.len() implies rest[q] != ':' by {
        assert(rest[q] == name[q]);
    }
    lemma_find_char_is(rest, ':', name.len() as int);
    assert(s1.take(owner.len() as int) =~= owner);
    assert(rest.take(name.len() as int) =~= name);
    assert(rest.skip(name.len() + 1int) =~= desc);
}

/// The body of an `invoke-<kind>` instruction:
/// `<addr>: invoke-<kind> <regs>, L<owner>;.<name>:<desc><tail>`.
pub open spec fn invoke_text(
    addr: Seq<char>,
    kind: Seq<char>,
    regs: Seq<char>,
    owner: Seq<char>,
    name: Seq<char>,
    desc: Seq<char>,
    tail: Seq<char>,
) -> Seq<char> {
    addr + seq![':', ' '] + "invoke-"@ + kind + seq![' '] + regs + seq![',', ' '] + method_ref_text(
        owner,
        name,
        desc,
    ) + tail
}

/// After the address and its colon, the instruction, its leading space
/// dropped.
proof fn lemma_after_colon(addr: Seq<char>, after: Seq<char>)
    requires
        lacks(addr, ':'),
        after.len() > 0,
        !crate::text::is_ws(after[0]),
    ensures
        find_char(addr + seq![':', ' '] + after, ':') == Some(addr.len() as int),
        trim_start((addr + seq![':', ' '] + after).skip(addr.len() + 1int)) == after,
{
    let body = addr + seq![':', ' '] + after;
    let a = addr.len() as int;
    assert(body[a] == ':');
    assert forall|q: int| 0 <= q < a implies body[q] != ':' by {
        assert(body[q] == addr[q]);
    }
    lemma_find_char_is(body, ':', a);
    let t = body.skip(a + 1);
    assert(t =~= seq![' '] + after);
    assert(t[0] == ' ');
    assert(crate::text::is_ws(t[0]));
    assert(t.drop_first() =~= after);
    assert(trim_start(t) == trim_start(t.drop_first()));
    assert(trim_start(after) == after);
}

/// The last comma, when none follows in `rest`.
proof fn lemma_last_comma(head: Seq<char>, rest: Seq<char>)
    requires
        lacks(rest, ','),
    ensures
        rfind_char(head + seq![','] + rest, ',') == Some(head.len() as int),
        (head + seq![','] + rest).skip(head.len() + 1int) == rest,
{
    let s = head + seq![','] + rest;
    let h = head.len() as int;
    assert(s[h] == ',');
    assert forall|q: int| h < q < s.len() implies s[q] != ',' by {
        assert(s[q] == rest[q - h - 1]);
    }
    lemma_rfind_char_is(s, ',', h);
    assert(s.skip(h + 1) =~= rest);
}

/// A method reference holds no comma and no whitespace, when its parts hold
/// none.
proof fn lemma_method_ref_text_chars(owner: Seq<char>, name: Seq<char>, desc: Seq<char>)
    requires
        lacks(owner, ',') && no_whitespace(owner),
        lacks(name, ',') && no_whitespace(name),
        lacks(desc, ',') && no_whitespace(desc),
    ensures
        lacks(method_ref_text(owner, name, desc), ','),
        no_whitespace(method_ref_text(owner, name, desc)),
        method_ref_text(owner, name, desc).len() > 0,
        method_ref_text(owner, name, desc)[0] == 'L',
{
    let lref = method_ref_text(owner, name, desc);
    let o = owner.len() as int;
    let n = name.len() as int;
    assert forall|q: int| 0 <= q < lref.len() implies lref[q] != ',' && !crate::text::is_ws(lref[q]) by {
        if 1 <= q < 1 + o {
            assert(lref[q] == owner[q - 1]);
        } else if 1 + o + 2 <= q < 1 + o + 2 + n {
            assert(lref[q] == name[q - 3 - o]);
        } else if 1 + o + 2 + n + 1 <= q {
            assert(lref[q] == desc[q - 4 - o - n]);
        }
    }
}

/// What follows the last comma reads as the method reference, whether or not
/// a ` // ` comment follows it.
proof fn lemma_read_reference(lref: Seq<char>, tail: Seq<char>, comment: Seq<char>, commented: bool)
    requires
        lref.len() > 0,
        no_whitespace(lref),
        tail == (if commented {
            seq![' ', '/', '/', ' '] + comment
        } else {
            Seq::empty()
        }),
        commented ==> comment.len() > 0 && !crate::text::is_ws(comment[0]),
    ensures
        ({
            let r = trim(seq![' '] + lref + tail);
            let r2 = match find_pat(r, " // "@) {
                Some(k) => r.take(k),
                None => r,
            };
            trim(r2) == lref
        }),
{
    reveal_strlit(" // ");
    let rest = seq![' '] + lref + tail;
    assert(rest[0] == ' ');
    assert(rest.drop_first() =~= lref + tail);
    assert(trim_start(rest) == trim_start(lref + tail));
    assert((lref + tail)[0] == lref[0]);
    assert(trim_start(lref + tail) == lref + tail);
    lemma_trim_end_id(lref);
    assert(trim_start(lref) == lref);
    if commented {
        let dc = tail;
        assert(dc[4] == comment[0]);
        lemma_trim_end_suffix(lref, dc, 4);
        let r = lref + trim_end(dc);
        assert(trim(rest) == r);
        let td = trim_end(dc);
        let l = lref.len() as int;
        assert(crate::text::occurs_at(r, " // "@, l)) by {
            assert(r.subrange(l, l + 4) =~= " // "@) by {
                assert forall|q: int| 0 <= q < 4 implies r.subrange(l, l + 4)[q] == " // "@[q] by {
                    assert(r[l + q] == td[q]);
                    assert(td[q] == dc[q]);
                }
            }
        }
        assert forall|q: int| 0 <= q < l implies !crate::text::occurs_at(r, " // "@, q) by {
            if crate::text::occurs_at(r, " // "@, q) {
                assert(r.subrange(q, q + 4)[0] == r[q]);
                assert(r[q] == lref[q]);
            }
        }
        lemma_find_pat_from_is(r, " // "@, 0, l);
        assert(r.take(l) =~= lref);
    } else {
        assert(lref + tail =~= lref);
        assert(trim(rest) == lref);
        lemma_find_pat_from_none(lref, " // "@, 0);
    }
}

/// Every kind of invoke (`virtual`, `super`, `direct`, `static`,
/// `interface`, with or without `/range`, or any other) gives its callee: the
/// owner, name and descriptor of the method reference after the last comma,
/// whether or not a ` // ` comment follows it.
pub proof fn lemma_invoke_target_kinds(
    addr: Seq<char>,
    kind: Seq<char>,
    regs: Seq<char>,
    owner: Seq<char>,
    name: Seq<char>,
    desc: Seq<char>,
    comment: Seq<char>,
    commented: bool,
)
    requires
        lacks(addr, ':'),
        lacks(owner, ';') && lacks(owner, ',') && no_whitespace(owner),
        lacks(name, ':') && lacks(name, ',') && no_whitespace(name),
        lacks(desc, ',') && no_whitespace(desc),
        commented ==> comment.len() > 0 && !crate::text::is_ws(comment[0]) && lacks(comment, ','),
    ensures
        spec_invoke_target(
            invoke_text(
                addr,
                kind,
                regs,
                owner,
                name,
                desc,
                if commented {
                    seq![' ', '/', '/', ' '] + comment
                } else {
                    Seq::empty()
                },
            ),
        ) == Some(SpecMethodRef { owner, name, desc }),
{
    reveal_strlit("invoke-");
    let inv = "invoke-"@;
    let lref = method_ref_text(owner, name, desc);
    let tail = if commented {
        seq![' ', '/', '/', ' '] + comment
    } else {
        Seq::empty()
    };
    let body = invoke_text(addr, kind, regs, owner, name, desc, tail);
    let head = inv + kind + seq![' '] + regs;
    let rest = seq![' '] + lref + tail;
    let after = head + seq![','] + rest;
    assert(body =~= addr + seq![':', ' '] + after);
    assert(after[0] == 'i');
    lemma_after_colon(addr, after);
    assert(after.take(7) =~= inv);
    lemma_method_ref_text_chars(owner, name, desc);
    assert(lacks(rest, ',')) by {
        assert forall|q: int| 0 <= q < rest.len() implies rest[q] != ',' by {
            if 1 <= q < 1 + lref.len() {
                assert(rest[q] == lref[q - 1]);
            } else if q >= 1 + lref.len() {
                assert(rest[q] == tail[q - 1 - lref.len()]);
                if commented && q - 1 - lref.len() >= 4 {
                    assert(tail[q - 1 - lref.len()] == comment[q - 5 - lref.len()]);
                }
            }
        }
    }
    lemma_last_comma(head, rest);
    lemma_read_reference(lref, tail, comment, commented);
    lemma_parse_method_ref_text(owner, name, desc);
}

/// The hex value of a prefix is at most that of the whole.
pub proof fn lemma_hex_prefix_le(s: Seq<char>, n: int)
    requires
        0 <= n <= s.len(),
    ensures
        hex_value(s.take(n)) <= hex_value(s),
    decreases s.len(),
{
    if n < s.len() {
        lemma_hex_prefix_le(s.drop_last(), n);
        assert(s.drop_last().take(n) =~= s.take(n));
    } else {
        assert(s.take(n) =~= s);
    }
}

// ---------------------------------------------------------------------------
// Executable decoders
// ---------------------------------------------------------------------------

impl MethodRef {
    /// Whether the two references denote the same method.
    pub fn same_as(&self, other: &MethodRef) -> (b: bool)
        ensures
            b == (self@ == other@),
    {
        self.owner == other.owner && self.name == other.name && self.desc == other.desc
    }

    /// A copy of this reference.
    pub fn duplicate(&self) -> (r: MethodRef)
        ensures
            r@ == self@,
    {
        MethodRef { owner: self.owner.clone(), name: self.name.clone(), desc: self.desc.clone() }
    }

    /// `owner.name+desc`: the identity used across the call graph.
    pub fn signature(&self) -> (s: String)
        ensures
            s@ == spec_signature(self@),
    {
        let mut s = self.owner.clone();
        push_char(&mut s, '.');
        append_str(&mut s, self.name.as_str());
        append_str(&mut s, self.desc.as_str());
        s
    }

    /// `com.foo.Bar.name`: dotted, for display.
    pub fn fqn(&self) -> (s: String)
        ensures
            s@ == spec_fqn(self@),
    {
        let v = chars_of(self.owner.as_str());
        let mut s = replace_char_at(&v, 0, v.len(), '/', '.');
        assert(v@.subrange(0, v@.len() as int) =~= v@);
        push_char(&mut s, '.');
        append_str(&mut s, self.name.as_str());
        s
    }
}

impl Class {
    /// Whether the class is an interface (`ACC_INTERFACE`).
    pub fn is_interface(&self) -> (b: bool)
        ensures
            b == (self.access & ACC_INTERFACE != 0),
    {
        self.access & ACC_INTERFACE != 0
    }

    /// Whether the class is compiler-generated (`ACC_SYNTHETIC`).
    pub fn is_synthetic(&self) -> (b: bool)
        ensures
            b == (self.access & ACC_SYNTHETIC != 0),
    {
        self.access & ACC_SYNTHETIC != 0
    }
}

/// Whether `v` holds a reference to the same method as `t`.
pub fn refs_contain(v: &Vec<MethodRef>, t: &MethodRef) -> (b: bool)
    ensures
        b == refs_view(v@).contains(t@),
{
    let mut i: usize = 0;
    while i < v.len()
        invariant
            i <= v@.len(),
            forall|j: int| 0 <= j < i ==> v@[j]@ != t@,
        decreases v.len() - i,
    {
        if v[i].same_as(t) {
            assert(refs_view(v@)[i as int] == t@);
            return true;
        }
        i = i + 1;
    }
    assert forall|j: int| 0 <= j < refs_view(v@).len() implies refs_view(v@)[j] != t@ by {}
    false
}

/// The character sequences of the keywords the decoder looks for.
struct Lexicon {
    class_descriptor: Vec<char>,
    access_flags: Vec<char>,
    superclass: Vec<char>,
    interfaces: Vec<char>,
    static_fields: Vec<char>,
    instance_fields: Vec<char>,
    direct_methods: Vec<char>,
    virtual_methods: Vec<char>,
    name: Vec<char>,
    type_: Vec<char>,
    invoke: Vec<char>,
    semi_dot: Vec<char>,
    comment: Vec<char>,
}

impl Lexicon {
    spec fn wf(&self) -> bool {
        &&& self.class_descriptor@ == "Class descriptor"@
        &&& self.access_flags@ == "Access flags"@
        &&& self.superclass@ == "Superclass"@
        &&& self.interfaces@ == "Interfaces"@
        &&& self.static_fields@ == "Static fields"@
        &&& self.instance_fields@ == "Instance fields"@
        &&& self.direct_methods@ == "Direct methods"@
        &&& self.virtual_methods@ == "Virtual methods"@
        &&& self.name@ == "name"@
        &&& self.type_@ == "type"@
        &&& self.invoke@ == "invoke-"@
        &&& self.semi_dot@ == seq![';', '.']
        &&& self.comment@ == " // "@
    }

    fn new() -> (l: Lexicon)
        ensures
            l.wf(),
    {
        let mut semi_dot: Vec<char> = Vec::new();
        semi_dot.push(';');
        semi_dot.push('.');
        assert(semi_dot@ =~= seq![';', '.']);
        Lexicon {
            class_descriptor: chars_of("Class descriptor"),
            access_flags: chars_of("Access flags"),
            superclass: chars_of("Superclass"),
            interfaces: chars_of("Interfaces"),
            static_fields: chars_of("Static fields"),
            instance_fields: chars_of("Instance fields"),
            direct_methods: chars_of("Direct methods"),
            virtual_methods: chars_of("Virtual methods"),
            name: chars_of("name"),
            type_: chars_of("type"),
            invoke: chars_of("invoke-"),
            semi_dot,
            comment: chars_of(" // "),
        }
    }
}

/// Bounds of `spec_quoted(v[lo..hi])`.
fn quoted_at(v: &Vec<char>, lo: usize, hi: usize) -> (r: (usize, usize))
    requires
        lo <= hi <= v@.len(),
    ensures
        lo <= r.0 <= r.1 <= hi,
        v@.subrange(r.0 as int, r.1 as int) == spec_quoted(v@.subrange(lo as int, hi as int)),
{
    match find_char_at(v, lo, hi, '\'') {
        None => {
            assert(v@.subrange(lo as int, lo as int) =~= Seq::<char>::empty());
            (lo, lo)
        },
        Some(i) => {
            assert(v@.subrange(lo as int, hi as int).skip(i - lo + 1) =~= v@.subrange(
                i + 1,
                hi as int,
            ));
            match find_char_at(v, i + 1, hi, '\'') {
                None => (i + 1, hi),
                Some(j) => {
                    assert(v@.subrange(i + 1, hi as int).take(j - (i + 1)) =~= v@.subrange(
                        i + 1,
                        j as int,
                    ));
                    (i + 1, j)
                },
            }
        },
    }
}

/// Bounds of `spec_internal(v[lo..hi])`.
fn internal_at(v: &Vec<char>, lo: usize, hi: usize) -> (r: (usize, usize))
    requires
        lo <= hi <= v@.len(),
    ensures
        lo <= r.0 <= r.1 <= hi,
        v@.subrange(r.0 as int, r.1 as int) == spec_internal(v@.subrange(lo as int, hi as int)),
{
    let (a, b) = trim_at(v, lo, hi);
    if b - a >= 2 && v[a] == 'L' && v[b - 1] == ';' {
        assert(v@.subrange(a as int, b as int).subrange(1, (b - a) - 1) =~= v@.subrange(
            a + 1,
            b - 1,
        ));
        (a + 1, b - 1)
    } else {
        (a, b)
    }
}

/// A hexadecimal digit's value.
fn hex_digit(c: char) -> (r: Option<u64>)
    ensures
        match r {
            Some(x) => is_hex_digit(c) && x == hex_digit_value(c),
            None => !is_hex_digit(c),
        },
{
    let u = c as u32;
    if 0x30 <= u && u <= 0x39 {
        Some((u - 0x30) as u64)
    } else if 0x41 <= u && u <= 0x46 {
        Some((u - 0x41 + 10) as u64)
    } else if 0x61 <= u && u <= 0x66 {
        Some((u - 0x61 + 10) as u64)
    } else {
        None
    }
}

/// `spec_parse_hex_u32(v[lo..hi])`.
fn parse_hex_u32_at(v: &Vec<char>, lo: usize, hi: usize) -> (r: Option<u32>)
    requires
        lo <= hi <= v@.len(),
    ensures
        r == spec_parse_hex_u32(v@.subrange(lo as int, hi as int)),
{
    let ghost h = v@.subrange(lo as int, hi as int);
    let mut a = lo;
    assert(hi > lo ==> h[0] == v@[lo as int]);
    if hi > lo && v[lo] == '+' {
        a = lo + 1;
        assert(h.skip(1) =~= v@.subrange(a as int, hi as int));
    } else {
        assert(h =~= v@.subrange(a as int, hi as int));
    }
    let ghost d = v@.subrange(a as int, hi as int);
    if a == hi {
        return None;
    }
    let mut acc: u64 = 0;
    let mut i = a;
    assert(d.take(0) =~= Seq::<char>::empty());
    while i < hi
        invariant
            lo <= a <= i <= hi <= v@.len(),
            d == v@.subrange(a as int, hi as int),
            h == v@.subrange(lo as int, hi as int),
            d == (if h.len() > 0 && h[0] == '+' { h.skip(1) } else { h }),
            d.len() > 0,
            acc == hex_value(d.take(i - a)),
            acc <= u32::MAX,
            forall|j: int| 0 <= j < i - a ==> is_hex_digit(#[trigger] d[j]),
        decreases hi - i,
    {
        let c = v[i];
        assert(d[i - a] == c);
        match hex_digit(c) {
            None => {
                assert(!is_hex_digit(d[i - a]));
                assert(!all_hex(d));
                return None;
            },
            Some(x) => {
                assert(d.take(i + 1 - a).drop_last() =~= d.take(i - a));
                assert(d.take(i + 1 - a).last() == d[i - a]);
                acc = acc * 16 + x;
                if acc > 0xFFFF_FFFF {
                    proof {
                        lemma_hex_prefix_le(d, i + 1 - a);
                        assert(hex_value(d) > u32::MAX);
                    }
                    return None;
                }
            },
        }
        i = i + 1;
    }
    assert(d.take(hi - a) =~= d);
    Some(acc as u32)
}

/// `spec_hex_after_colon(v[lo..hi])`.
fn hex_after_colon_at(v: &Vec<char>, lo: usize, hi: usize) -> (r: u32)
    requires
        lo <= hi <= v@.len(),
    ensures
        r == spec_hex_after_colon(v@.subrange(lo as int, hi as int)),
{
    let ghost s = v@.subrange(lo as int, hi as int);
    let start = match find_char_at(v, lo, hi, ':') {
        Some(i) => {
            assert(s.skip(i - lo + 1) =~= v@.subrange(i + 1, hi as int));
            i + 1
        },
        None => lo,
    };
    let (a, b) = trim_at(v, start, hi);
    let e = match find_ws_at(v, a, b) {
        Some(k) => {
            assert(v@.subrange(a as int, b as int).take(k - a) =~= v@.subrange(a as int, k as int));
            k
        },
        None => b,
    };
    let ghost tok = v@.subrange(a as int, e as int);
    if e - a >= 2 && v[a] == '0' && v[a + 1] == 'x' {
        assert(tok.take(2) =~= seq!['0', 'x']);
        assert(tok.skip(2) =~= v@.subrange(a + 2, e as int));
        match parse_hex_u32_at(v, a + 2, e) {
            Some(x) => x,
            None => 0,
        }
    } else {
        proof {
            if starts_with(tok, seq!['0', 'x']) {
                assert(tok.take(2)[0] == tok[0]);
                assert(tok.take(2)[1] == tok[1]);
            }
        }
        0
    }
}

/// `spec_parse_method_ref(v[lo..hi])`.
fn parse_method_ref_at(v: &Vec<char>, lo: usize, hi: usize, lex: &Lexicon) -> (r: Option<MethodRef>)
    requires
        lo <= hi <= v@.len(),
        lex.wf(),
    ensures
        match r {
            Some(m) => spec_parse_method_ref(v@.subrange(lo as int, hi as int)) == Some(m@),
            None => spec_parse_method_ref(v@.subrange(lo as int, hi as int)) is None,
        },
{
    let ghost s = v@.subrange(lo as int, hi as int);
    if hi == lo || v[lo] != 'L' {
        return None;
    }
    let a = lo + 1;
    assert(s.skip(1) =~= v@.subrange(a as int, hi as int));
    match find_pat_at(v, a, hi, &lex.semi_dot) {
        None => None,
        Some(k) => {
            let ghost s1 = v@.subrange(a as int, hi as int);
            assert(s1.take(k - a) =~= v@.subrange(a as int, k as int));
            assert(s1.skip(k - a + 2) =~= v@.subrange(k + 2, hi as int));
            match find_char_at(v, k + 2, hi, ':') {
                None => None,
                Some(m) => {
                    let ghost rest = v@.subrange(k + 2, hi as int);
                    assert(rest.take(m - (k + 2)) =~= v@.subrange(k + 2, m as int));
                    assert(rest.skip(m - (k + 2) + 1) =~= v@.subrange(m + 1, hi as int));
                    Some(
                        MethodRef {
                            owner: string_of(v, a, k),
                            name: string_of(v, k + 2, m),
                            desc: string_of(v, m + 1, hi),
                        },
                    )
                },
            }
        },
    }
}

/// `spec_invoke_target(v[lo..hi])`.
fn invoke_target_at(v: &Vec<char>, lo: usize, hi: usize, lex: &Lexicon) -> (r: Option<MethodRef>)
    requires
        lo <= hi <= v@.len(),
        lex.wf(),
    ensures
        match r {
            Some(m) => spec_invoke_target(v@.subrange(lo as int, hi as int)) == Some(m@),
            None => spec_invoke_target(v@.subrange(lo as int, hi as int)) is None,
        },
{
    let ghost body = v@.subrange(lo as int, hi as int);
    let i = match find_char_at(v, lo, hi, ':') {
        None => {
            return None;
        },
        Some(i) => i,
    };
    assert(body.skip(i - lo + 1) =~= v@.subrange(i + 1, hi as int));
    let a = trim_start_at(v, i + 1, hi);
    if !starts_with_at(v, a, hi, &lex.invoke) {
        return None;
    }
    let j = match rfind_char_at(v, a, hi, ',') {
        None => {
            return None;
        },
        Some(j) => j,
    };
    assert(v@.subrange(a as int, hi as int).skip(j - a + 1) =~= v@.subrange(j + 1, hi as int));
    let (r0, r1) = trim_at(v, j + 1, hi);
    let e = match find_pat_at(v, r0, r1, &lex.comment) {
        Some(k) => {
            assert(v@.subrange(r0 as int, r1 as int).take(k - r0) =~= v@.subrange(
                r0 as int,
                k as int,
            ));
            k
        },
        None => r1,
    };
    let (m0, m1) = trim_at(v, r0, e);
    parse_method_ref_at(v, m0, m1, lex)
}

/// Text between the first pair of single quotes.
pub fn quoted(s: &str) -> (r: String)
    ensures
        r@ == spec_quoted(s@),
{
    let v = chars_of(s);
    assert(v@.subrange(0, v@.len() as int) =~= v@);
    let (a, b) = quoted_at(&v, 0, v.len());
    string_of(&v, a, b)
}

/// `'Lcom/foo/Bar;'` to `com/foo/Bar` (internal name), for text already
/// unquoted.
pub fn internal(quoted_desc: &str) -> (r: String)
    ensures
        r@ == spec_internal(quoted_desc@),
{
    let v = chars_of(quoted_desc);
    assert(v@.subrange(0, v@.len() as int) =~= v@);
    let (a, b) = internal_at(&v, 0, v.len());
    string_of(&v, a, b)
}

/// The hex value after a `:` (e.g. `Access flags : 0x0601 (...)`), 0 when
/// there is none.
pub fn hex_after_colon(s: &str) -> (r: u32)
    ensures
        r == spec_hex_after_colon(s@),
{
    let v = chars_of(s);
    assert(v@.subrange(0, v@.len() as int) =~= v@);
    hex_after_colon_at(&v, 0, v.len())
}

/// `Lcom/foo/Bar;.name:desc` to a [`MethodRef`].
pub fn parse_method_ref(s: &str) -> (r: Option<MethodRef>)
    ensures
        match r {
            Some(m) => spec_parse_method_ref(s@) == Some(m@),
            None => spec_parse_method_ref(s@) is None,
        },
{
    let v = chars_of(s);
    assert(v@.subrange(0, v@.len() as int) =~= v@);
    let lex = Lexicon::new();
    parse_method_ref_at(&v, 0, v.len(), &lex)
}

/// The callee of an `invoke-*` instruction body, else `None`.
/// `0006: invoke-interface {v0}, Lcom/foo/IBar;.baz:(I)V // method@123`
pub fn invoke_target(body: &str) -> (r: Option<MethodRef>)
    ensures
        match r {
            Some(m) => spec_invoke_target(body@) == Some(m@),
            None => spec_invoke_target(body@) is None,
        },
{
    let v = chars_of(body);
    assert(v@.subrange(0, v@.len() as int) =~= v@);
    let lex = Lexicon::new();
    invoke_target_at(&v, 0, v.len(), &lex)
}

/// The executable decoder state; its view is a [`ParseState`].
struct Cursor {
    classes: Vec<Class>,
    cur: Option<Class>,
    sec: Sec,
    pending: Option<String>,
}

/// The view of an optional class.
pub open spec fn opt_class_view(c: Option<Class>) -> Option<SpecClass> {
    match c {
        Some(x) => Some(x@),
        None => None,
    }
}

impl View for Cursor {
    type V = ParseState;

    closed spec fn view(&self) -> ParseState {
        ParseState {
            classes: classes_view(self.classes@),
            cur: opt_class_view(self.cur),
            sec: self.sec,
            pending: opt_string_view(self.pending),
        }
    }
}

/// A line in a methods section of the open class `c`.
fn method_line_exec(
    classes: Vec<Class>,
    c: Class,
    pending: Option<String>,
    line: &Vec<char>,
    lo: usize,
    hi: usize,
    lex: &Lexicon,
) -> (r: Cursor)
    requires
        lo <= hi <= line@.len(),
        lex.wf(),
    ensures
        r@ == method_line(
            ParseState {
                classes: classes_view(classes@),
                cur: Some(c@),
                sec: Sec::Methods,
                pending: opt_string_view(pending),
            },
            c@,
            line@.subrange(0, hi as int),
            line@.subrange(lo as int, hi as int),
        ),
{
    let ghost t = line@.subrange(lo as int, hi as int);
    let ghost l = line@.subrange(0, hi as int);
    let mut c = c;
    let ghost c0 = c@;
    if starts_with_at(line, lo, hi, &lex.name) {
        let k = lo + lex.name.len();
        assert(t.skip(lex.name@.len() as int) =~= line@.subrange(k as int, hi as int));
        let (qa, qb) = quoted_at(line, k, hi);
        let p = string_of(line, qa, qb);
        let r = Cursor { classes, cur: Some(c), sec: Sec::Methods, pending: Some(p) };
        return r;
    }
    if starts_with_at(line, lo, hi, &lex.type_) {
        let k = lo + lex.type_.len();
        assert(t.skip(lex.type_@.len() as int) =~= line@.subrange(k as int, hi as int));
        match pending {
            Some(n) => {
                let (qa, qb) = quoted_at(line, k, hi);
                let desc = string_of(line, qa, qb);
                let m = Method { name: n, desc, invokes: Vec::new() };
                assert(refs_view(m.invokes@) =~= Seq::<SpecMethodRef>::empty());
                let ghost ms0 = c.methods@;
                c.methods.push(m);
                assert(methods_view(c.methods@) =~= methods_view(ms0).push(m@));
                return Cursor { classes, cur: Some(c), sec: Sec::Methods, pending: None };
            },
            None => {
                return Cursor { classes, cur: Some(c), sec: Sec::Methods, pending: None };
            },
        }
    }
    match find_char_at(line, 0, hi, '|') {
        None => Cursor { classes, cur: Some(c), sec: Sec::Methods, pending },
        Some(i) => {
            assert(l.skip(i + 1) =~= line@.subrange(i + 1, hi as int));
            let a = trim_start_at(line, i + 1, hi);
            match invoke_target_at(line, a, hi, lex) {
                None => Cursor { classes, cur: Some(c), sec: Sec::Methods, pending },
                Some(target) => {
                    if c.methods.len() > 0 {
                        let ghost ms0 = c.methods@;
                        let mut m = c.methods.pop().unwrap();
                        let ghost m0 = m@;
                        assert(m0 == methods_view(ms0).last());
                        if !refs_contain(&m.invokes, &target) {
                            let ghost inv0 = m.invokes@;
                            m.invokes.push(target);
                            assert(refs_view(m.invokes@) =~= refs_view(inv0).push(target@));
                        }
                        c.methods.push(m);
                        assert(methods_view(c.methods@) =~= methods_view(ms0).update(
                            ms0.len() - 1,
                            m@,
                        ));
                        proof {
                            if methods_view(ms0).last().invokes.contains(target@) {
                                assert(methods_view(c.methods@) =~= methods_view(ms0));
                            }
                        }
                    }
                    Cursor { classes, cur: Some(c), sec: Sec::Methods, pending }
                },
            }
        },
    }
}

/// A line inside the open class `c`.
fn class_line_exec(
    classes: Vec<Class>,
    c: Class,
    sec: Sec,
    pending: Option<String>,
    line: &Vec<char>,
    lo: usize,
    hi: usize,
    lex: &Lexicon,
) -> (r: Cursor)
    requires
        lo <= hi <= line@.len(),
        lex.wf(),
    ensures
        r@ == class_line(
            ParseState {
                classes: classes_view(classes@),
                cur: Some(c@),
                sec: sec,
                pending: opt_string_view(pending),
            },
            c@,
            line@.subrange(0, hi as int),
            line@.subrange(lo as int, hi as int),
        ),
{
    let ghost t = line@.subrange(lo as int, hi as int);
    let mut c = c;
    if starts_with_at(line, lo, hi, &lex.access_flags) {
        let k = lo + lex.access_flags.len();
        assert(t.skip(lex.access_flags@.len() as int) =~= line@.subrange(k as int, hi as int));
        c.access = hex_after_colon_at(line, k, hi);
        return Cursor { classes, cur: Some(c), sec, pending };
    }
    if starts_with_at(line, lo, hi, &lex.superclass) {
        let k = lo + lex.superclass.len();
        assert(t.skip(lex.superclass@.len() as int) =~= line@.subrange(k as int, hi as int));
        let (qa, qb) = quoted_at(line, k, hi);
        let (ia, ib) = internal_at(line, qa, qb);
        c.super_name = Some(string_of(line, ia, ib));
        return Cursor { classes, cur: Some(c), sec, pending };
    }
    if starts_with_at(line, lo, hi, &lex.interfaces) {
        return Cursor { classes, cur: Some(c), sec: Sec::Interfaces, pending };
    }
    if starts_with_at(line, lo, hi, &lex.static_fields) || starts_with_at(
        line,
        lo,
        hi,
        &lex.instance_fields,
    ) {
        return Cursor { classes, cur: Some(c), sec: Sec::Fields, pending };
    }
    if starts_with_at(line, lo, hi, &lex.direct_methods) || starts_with_at(
        line,
        lo,
        hi,
        &lex.virtual_methods,
    ) {
        return Cursor { classes, cur: Some(c), sec: Sec::Methods, pending };
    }
    match sec {
        Sec::Interfaces => {
            let hash = hi > lo && line[lo] == '#';
            proof {
                if hi > lo {
                    assert(t.take(1) =~= seq![t[0]]);
                }
                if starts_with(t, seq!['#']) {
                    assert(t.take(1)[0] == t[0]);
                }
            }
            if hash && find_char_at(line, lo, hi, '\'').is_some() {
                let (qa, qb) = quoted_at(line, lo, hi);
                let (ia, ib) = internal_at(line, qa, qb);
                let ghost is0 = c.interfaces@;
                c.interfaces.push(string_of(line, ia, ib));
                assert(strings_view(c.interfaces@) =~= strings_view(is0).push(
                    spec_internal(spec_quoted(t)),
                ));
            }
            Cursor { classes, cur: Some(c), sec, pending }
        },
        Sec::Methods => method_line_exec(classes, c, pending, line, lo, hi, lex),
        _ => Cursor { classes, cur: Some(c), sec, pending },
    }
}

/// One line of `dexdump -d` output.
#[verifier::rlimit(30)]
fn step(st: Cursor, line: &Vec<char>, lex: &Lexicon) -> (r: Cursor)
    requires
        lex.wf(),
    ensures
        r@ == parse_line(st@, line@),
{
    let hi = trim_end_at(line, 0, line.len());
    let lo = trim_start_at(line, 0, hi);
    assert(line@.subrange(0, line@.len() as int) =~= line@);
    let ghost t = line@.subrange(lo as int, hi as int);
    let Cursor { classes, cur, sec, pending } = st;
    if starts_with_at(line, lo, hi, &lex.class_descriptor) {
        let mut classes = classes;
        let ghost cs0 = classes@;
        match cur {
            Some(c) => {
                classes.push(c);
                assert(classes_view(classes@) =~= classes_view(cs0).push(c@));
            },
            None => {},
        }
        let k = lo + lex.class_descriptor.len();
        assert(t.skip(lex.class_descriptor@.len() as int) =~= line@.subrange(k as int, hi as int));
        let (qa, qb) = quoted_at(line, k, hi);
        let (ia, ib) = internal_at(line, qa, qb);
        let name = string_of(line, ia, ib);
        let c = Class {
            name,
            super_name: None,
            interfaces: Vec::new(),
            access: 0,
            methods: Vec::new(),
            jar: String::new(),
        };
        assert(strings_view(c.interfaces@) =~= Seq::<Seq<char>>::empty());
        assert(methods_view(c.methods@) =~= Seq::<SpecMethod>::empty());
        Cursor { classes, cur: Some(c), sec: Sec::Head, pending: None }
    } else {
        match cur {
            None => Cursor { classes, cur: None, sec, pending },
            Some(c) => class_line_exec(classes, c, sec, pending, line, lo, hi, lex),
        }
    }
}

/// Decode `dexdump -d` text into classes, in the order the text gives them.
/// Per class:
/// - `Class descriptor  : 'Lcom/foo/Bar;'`, `Access flags : 0x0601 (...)`,
///   `Superclass : 'L...;'`, `Interfaces` then `#0 : 'L...;'`.
/// - In `Direct/Virtual methods`, each method is a `name : '...'` + `type : 'desc'`
///   pair (present even for abstract/interface methods with no code).
/// - Invoke edges come from the disassembly body lines (`<addr>| <n>: invoke-* ...,
///   Lowner;.m:desc`) and attach to the method whose declaration last appeared.
pub fn parse(text: &str) -> (r: Vec<Class>)
    ensures
        classes_view(r@) == spec_parse(text@),
{
    let lex = Lexicon::new();
    let mut st = Cursor { classes: Vec::new(), cur: None, sec: Sec::Head, pending: None };
    assert(classes_view(st.classes@) =~= Seq::<SpecClass>::empty());
    let mut line: Vec<char> = Vec::new();
    proof {
        assert(text@.take(0) =~= Seq::<char>::empty());
        assert(text_lines(Seq::<char>::empty()).drop_last() =~= Seq::<Seq<char>>::empty());
    }
    let ghost mut p: Seq<char> = Seq::empty();
    for c in it: text.chars()
        invariant
            lex.wf(),
            p == it.seq().take(it.index() as int),
            st@ == parse_lines(text_lines(p).drop_last()),
            line@ == text_lines(p).last(),
    {
        let ghost ls = text_lines(p);
        proof {
            lemma_text_lines_nonempty(p);
            assert(it.seq().take(it.index() + 1) =~= p.push(c));
            assert(p.push(c).drop_last() =~= p);
        }
        if c == '\n' {
            st = step(st, &line, &lex);
            line = Vec::new();
            proof {
                assert(ls =~= ls.drop_last().push(ls.last()));
                lemma_parse_lines_push(ls.drop_last(), ls.last());
                assert(text_lines(p.push(c)) == ls.push(Seq::<char>::empty()));
                assert(ls.push(Seq::<char>::empty()).drop_last() =~= ls);
                assert(line@ =~= Seq::<char>::empty());
            }
        } else {
            line.push(c);
            proof {
                let nl = ls.update(ls.len() - 1, ls.last().push(c));
                assert(text_lines(p.push(c)) == nl);
                assert(nl.drop_last() =~= ls.drop_last());
            }
        }
        proof {
            p = p.push(c);
        }
    }
    let ghost ls = text_lines(text@);
    proof {
        assert(p =~= text@);
        lemma_text_lines_nonempty(text@);
        assert(ls =~= ls.drop_last().push(ls.last()));
        lemma_parse_lines_push(ls.drop_last(), ls.last());
    }
    let st = step(st, &line, &lex);
    let Cursor { classes, cur, sec: _, pending: _ } = st;
    let mut classes = classes;
    let ghost cs0 = classes@;
    match cur {
        Some(c) => {
            classes.push(c);
            assert(classes_view(classes@) =~= classes_view(cs0).push(c@));
        },
        None => {},
    }
    classes
}

} // verus!
