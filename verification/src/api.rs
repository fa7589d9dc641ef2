//! The public-API oracle: the set of method signatures (`owner/name+desc`) that
//! count as public SDK entrypoints, read either from a signature list (one per
//! line) or from the classes of an SDK dex/jar, whose every method is public.

use vstd::prelude::*;
use crate::input::{extension, spec_extension};
use crate::dex::{spec_signature, Class, Method, SpecClass, SpecMethodRef, classes_view};
use crate::text::{
    append_range, chars_of, dedup, find_char, find_char_at, lemma_text_lines_nonempty,
    push_char, replace_char, replace_char_at, rfind_char, rfind_char_at, strings_view, text_lines,
    trim, trim_at, UniqueStrings,
};

verus! {

/// A signature line in internal form: the owner's dots become slashes, where
/// the owner is the text before the last `.` that precedes the first `(`.
/// A line with no `(` (or no `.` before it) has every dot made a slash.
pub open spec fn spec_normalize(line: Seq<char>) -> Seq<char> {
    match find_char(line, '(') {
        None => replace_char(line, '.', '/'),
        Some(i) => {
            let before = line.take(i);
            match rfind_char(before, '.') {
                Some(j) => replace_char(before.take(j), '.', '/') + seq!['.'] + before.skip(j + 1)
                    + seq!['('] + line.skip(i + 1),
                None => replace_char(line, '.', '/'),
            }
        },
    }
}

/// A trimmed line of a signature list that holds a signature: not blank and
/// not a `#` comment.
pub open spec fn is_signature_line(t: Seq<char>) -> bool {
    t.len() > 0 && t[0] != '#'
}

/// The normalized signatures of the signature lines, in order.
pub open spec fn listed_signatures(lines: Seq<Seq<char>>) -> Seq<Seq<char>>
    decreases lines.len(),
{
    if lines.len() == 0 {
        Seq::empty()
    } else {
        let r = listed_signatures(lines.drop_last());
        let t = trim(lines.last());
        if is_signature_line(t) {
            r.push(spec_normalize(t))
        } else {
            r
        }
    }
}

/// The oracle that a signature list describes: its signatures, each once, in
/// the order of first appearance.
pub open spec fn spec_signature_list(text: Seq<char>) -> Seq<Seq<char>> {
    dedup(listed_signatures(text_lines(text)))
}

/// `owner.name+desc` of each method of `c`, in order.
pub open spec fn class_signatures(c: SpecClass) -> Seq<Seq<char>> {
    c.methods.map_values(
        |m: crate::dex::SpecMethod| spec_signature(SpecMethodRef { owner: c.name, name: m.name, desc: m.desc }),
    )
}

/// The signatures of every method of every class, in order.
pub open spec fn all_signatures(cs: Seq<SpecClass>) -> Seq<Seq<char>>
    decreases cs.len(),
{
    if cs.len() == 0 {
        Seq::empty()
    } else {
        all_signatures(cs.drop_last()) + class_signatures(cs.last())
    }
}

/// The oracle that an SDK's classes describe: every method they declare,
/// each once, in order of first appearance.
pub open spec fn spec_sdk_signatures(cs: Seq<SpecClass>) -> Seq<Seq<char>> {
    dedup(all_signatures(cs))
}

/// The first `c` in `s` is at `i` when `s[i]` is `c` and none comes before.
proof fn lemma_find_char_at(s: Seq<char>, c: char, i: int)
    requires
        0 <= i < s.len(),
        s[i] == c,
        forall|j: int| 0 <= j < i ==> s[j] != c,
    ensures
        find_char(s, c) == Some(i),
{
    crate::text::lemma_find_char_from(s, c, 0);
}

/// The last `c` in `s` is at `i` when `s[i]` is `c` and none comes after.
proof fn lemma_rfind_char_at(s: Seq<char>, c: char, i: int)
    requires
        0 <= i < s.len(),
        s[i] == c,
        forall|j: int| i < j < s.len() ==> s[j] != c,
    ensures
        rfind_char(s, c) == Some(i),
{
    crate::text::lemma_rfind_char_before(s, c, s.len() as int);
}

/// Normalizing a signature already in internal form leaves it as it is, so
/// normalizing twice is normalizing once.
pub proof fn lemma_normalize_idempotent(line: Seq<char>)
    ensures
        spec_normalize(spec_normalize(line)) == spec_normalize(line),
{
    let n = spec_normalize(line);
    crate::text::lemma_find_char_from(line, '(', 0);
    match find_char(line, '(') {
        None => {
            assert(n == replace_char(line, '.', '/'));
            crate::text::lemma_find_char_from(n, '(', 0);
            assert(replace_char(n, '.', '/') =~= n);
        },
        Some(i) => {
            let before = line.take(i);
            crate::text::lemma_rfind_char_before(before, '.', before.len() as int);
            lemma_find_char_at(n, '(', i);
            let before2 = n.take(i);
            match rfind_char(before, '.') {
                None => {
                    assert(n == replace_char(line, '.', '/'));
                    crate::text::lemma_rfind_char_before(before2, '.', before2.len() as int);
                    assert(replace_char(n, '.', '/') =~= n);
                },
                Some(j) => {
                    let owner = replace_char(before.take(j), '.', '/');
                    assert(n == owner + seq!['.'] + before.skip(j + 1) + seq!['('] + line.skip(i + 1));
                    assert(before2 =~= owner + seq!['.'] + before.skip(j + 1));
                    lemma_rfind_char_at(before2, '.', j);
                    assert(before2.take(j) =~= owner);
                    assert(replace_char(owner, '.', '/') =~= owner);
                    assert(before2.skip(j + 1) =~= before.skip(j + 1));
                    assert(n.skip(i + 1) =~= line.skip(i + 1));
                },
            }
        },
    }
}

/// An oracle file read as a signature list (`.txt` or `.list`); any other is
/// decoded as an SDK dex/jar.
pub open spec fn spec_is_signature_list(file_name: Seq<char>) -> bool {
    match spec_extension(file_name) {
        Some(e) => e == "txt"@ || e == "list"@,
        None => false,
    }
}

/// Whether the oracle file named `file_name` is a signature list rather than
/// an SDK dex/jar.
pub fn is_signature_list(file_name: &str) -> (b: bool)
    ensures
        b == spec_is_signature_list(file_name@),
{
    match extension(file_name) {
        Some(e) => {
            let txt = String::from_str("txt");
            let list = String::from_str("list");
            e == txt || e == list
        },
        None => false,
    }
}

/// `owner.name` then a descriptor: the owner and name hold no `.` or `(`, and
/// the descriptor starts with `(`.
pub open spec fn is_signature_parts(owner: Seq<char>, name: Seq<char>, desc: Seq<char>) -> bool {
    &&& !owner.contains('.') && !owner.contains('(')
    &&& !name.contains('.') && !name.contains('(')
    &&& desc.len() > 0 && desc[0] == '('
}

/// Normalizing `owner` `.` `name` `desc`, where `owner` is given in either form.
proof fn lemma_normalize_parts(o: Seq<char>, owner: Seq<char>, n: Seq<char>, d: Seq<char>)
    requires
        is_signature_parts(o, n, d),
        owner == o || owner == replace_char(o, '/', '.'),
    ensures
        spec_normalize(owner + seq!['.'] + n + d) == o + seq!['.'] + n + d,
{
    let line = owner + seq!['.'] + n + d;
    let i: int = (owner.len() + 1 + n.len()) as int;
    assert(owner.len() == o.len());
    assert forall|k: int| 0 <= k < owner.len() implies owner[k] != '(' && owner[k] != '.' ==> owner[k] == o[k]
        || owner[k] == '.' by {
        assert(o[k] != '(') by {
            if o[k] == '(' {
                assert(o.contains('('));
            }
        }
        assert(o[k] != '.') by {
            if o[k] == '.' {
                assert(o.contains('.'));
            }
        }
    }
    assert forall|k: int| 0 <= k < n.len() implies n[k] != '(' && n[k] != '.' by {
        if n[k] == '(' {
            assert(n.contains('('));
        }
        if n[k] == '.' {
            assert(n.contains('.'));
        }
    }
    assert forall|k: int| 0 <= k < i implies line[k] != '(' by {
        if k < owner.len() {
            assert(line[k] == owner[k]);
            assert(o[k] != '(') by {
                if o[k] == '(' {
                    assert(o.contains('('));
                }
            }
        } else if k > owner.len() {
            assert(line[k] == n[k - owner.len() - 1]);
        }
    }
    assert(line[i] == d[0]);
    lemma_find_char_at(line, '(', i);
    let before = line.take(i);
    assert(before =~= owner + seq!['.'] + n);
    assert forall|k: int| owner.len() < k < before.len() implies before[k] != '.' by {
        assert(before[k] == n[k - owner.len() - 1]);
    }
    lemma_rfind_char_at(before, '.', owner.len() as int);
    assert(before.take(owner.len() as int) =~= owner);
    assert(replace_char(owner, '.', '/') =~= o) by {
        assert forall|k: int| 0 <= k < o.len() implies #[trigger] replace_char(owner, '.', '/')[k] == o[k] by {
            assert(o[k] != '.') by {
                if o[k] == '.' {
                    assert(o.contains('.'));
                }
            }
        }
    }
    assert(before.skip(owner.len() + 1int) =~= n);
    assert(line.skip(i + 1) =~= d.skip(1));
    assert(seq!['('] + d.skip(1) =~= d);
    assert(o + seq!['.'] + n + seq!['('] + d.skip(1) =~= o + seq!['.'] + n + d);
}

/// A signature line may name its owner in internal (`a/b/C`) or dotted
/// (`a.b.C`) form: both give the same internal signature, and the internal
/// form is left as it is.
pub proof fn lemma_normalize_owner_forms(o: Seq<char>, n: Seq<char>, d: Seq<char>)
    requires
        is_signature_parts(o, n, d),
    ensures
        spec_normalize(replace_char(o, '/', '.') + seq!['.'] + n + d) == o + seq!['.'] + n + d,
        spec_normalize(o + seq!['.'] + n + d) == o + seq!['.'] + n + d,
{
    lemma_normalize_parts(o, replace_char(o, '/', '.'), n, d);
    lemma_normalize_parts(o, o, n, d);
}

/// `text[i..j]` is a line of `text`: it starts at the text's start or after
/// a line feed, ends at the text's end or at a line feed, and holds none.
pub open spec fn is_line_at(text: Seq<char>, i: int, j: int) -> bool {
    &&& 0 <= i <= j <= text.len()
    &&& (i == 0 || text[i - 1] == '\n')
    &&& (j == text.len() || text[j] == '\n')
    &&& forall|q: int| i <= q < j ==> text[q] != '\n'
}

/// The line `text[i..j]`, trimmed, is neither blank nor a `#` comment, and
/// `s` is its signature in internal form.
pub open spec fn line_gives(text: Seq<char>, s: Seq<char>, i: int, j: int) -> bool {
    let t = trim(text.subrange(i, j));
    &&& is_line_at(text, i, j)
    &&& t.len() > 0
    &&& t[0] != '#'
    &&& s == spec_normalize(t)
}

/// The number of line feeds in `s`.
spec fn line_feeds(s: Seq<char>) -> nat
    decreases s.len(),
{
    if s.len() == 0 {
        0
    } else {
        line_feeds(s.drop_last()) + if s.last() == '\n' {
            1nat
        } else {
            0nat
        }
    }
}

/// Line feeds between `a` and `b` raise the count; none leave it.
proof fn lemma_line_feeds_range(s: Seq<char>, a: int, b: int)
    requires
        0 <= a <= b <= s.len(),
    ensures
        line_feeds(s.take(a)) <= line_feeds(s.take(b)),
        (forall|q: int| a <= q < b ==> s[q] != '\n') ==> line_feeds(s.take(a)) == line_feeds(s.take(b)),
        (exists|q: int| a <= q < b && s[q] == '\n') ==> line_feeds(s.take(a)) < line_feeds(s.take(b)),
    decreases b - a,
{
    if a < b {
        lemma_line_feeds_range(s, a, b - 1);
        assert(s.take(b).drop_last() =~= s.take(b - 1));
        assert(s.take(b).last() == s[b - 1]);
        if exists|q: int| a <= q < b && s[q] == '\n' {
            let q = choose|q: int| a <= q < b && s[q] == '\n';
            if q < b - 1 {
                assert(exists|q2: int| a <= q2 < b - 1 && s[q2] == '\n');
            }
        }
    }
}

/// One piece per line feed, and one more.
proof fn lemma_text_lines_len(s: Seq<char>)
    ensures
        text_lines(s).len() == line_feeds(s) + 1,
    decreases s.len(),
{
    if s.len() > 0 {
        lemma_text_lines_len(s.drop_last());
    }
}

/// Each line is the piece numbered by the line feeds before it.
proof fn lemma_line_in_pieces(s: Seq<char>, i: int, j: int)
    requires
        is_line_at(s, i, j),
    ensures
        line_feeds(s.take(i)) < text_lines(s).len(),
        text_lines(s)[line_feeds(s.take(i)) as int] == s.subrange(i, j),
    decreases s.len(),
{
    lemma_text_lines_len(s);
    if s.len() == 0 {
        assert(s.take(0) =~= Seq::<char>::empty());
        assert(s.subrange(0, 0) =~= Seq::<char>::empty());
    } else {
        let p = s.drop_last();
        let n = p.len() as int;
        let c = s.last();
        let ls = text_lines(p);
        lemma_text_lines_len(p);
        if c == '\n' {
            if j == s.len() {
                if i < j {
                    assert(s[j - 1] == '\n');
                }
                assert(s.take(i) =~= s);
                assert(p.push(c) =~= s);
                assert(s.subrange(i, j) =~= Seq::<char>::empty());
            } else {
                assert(is_line_at(p, i, j));
                lemma_line_in_pieces(p, i, j);
                assert(s.take(i) =~= p.take(i));
                assert(s.subrange(i, j) =~= p.subrange(i, j));
            }
        } else {
            if j == s.len() {
                if i == j {
                    assert(s[i - 1] == '\n');
                }
                assert(is_line_at(p, i, n));
                lemma_line_in_pieces(p, i, n);
                lemma_line_feeds_range(p, i, n);
                assert(p.take(n) =~= p);
                assert(s.take(i) =~= p.take(i));
                assert(s.subrange(i, j) =~= p.subrange(i, n).push(c));
            } else {
                assert(j < n);
                assert(is_line_at(p, i, j));
                lemma_line_in_pieces(p, i, j);
                lemma_line_feeds_range(p, i, n);
                assert(p[j] == '\n');
                assert(p.take(n) =~= p);
                assert(s.take(i) =~= p.take(i));
                assert(s.subrange(i, j) =~= p.subrange(i, j));
            }
        }
    }
}

/// Each piece is a line, numbered by the line feeds before it.
proof fn lemma_pieces_are_lines(s: Seq<char>, q: int)
    requires
        0 <= q < text_lines(s).len(),
    ensures
        exists|i: int, j: int|
            is_line_at(s, i, j) && text_lines(s)[q] == s.subrange(i, j) && line_feeds(s.take(i)) == q,
    decreases s.len(),
{
    lemma_text_lines_len(s);
    if s.len() == 0 {
        assert(s.take(0) =~= Seq::<char>::empty());
        assert(s.subrange(0, 0) =~= Seq::<char>::empty());
        assert(is_line_at(s, 0, 0) && text_lines(s)[q] == s.subrange(0, 0) && line_feeds(s.take(0)) == q);
    } else {
        let p = s.drop_last();
        let n = p.len() as int;
        let c = s.last();
        let ls = text_lines(p);
        lemma_text_lines_len(p);
        assert(p.take(n) =~= p);
        assert forall|k: int| 0 <= k < n implies #[trigger] s[k] == p[k] by {}
        assert(s[n] == c);
        if c == '\n' {
            if q == ls.len() {
                assert(s.take(s.len() as int) =~= s);
                assert(s.subrange(s.len() as int, s.len() as int) =~= Seq::<char>::empty());
                assert(is_line_at(s, s.len() as int, s.len() as int));
            } else {
                lemma_pieces_are_lines(p, q);
                let (i, j) = choose|i: int, j: int|
                    is_line_at(p, i, j) && text_lines(p)[q] == p.subrange(i, j) && line_feeds(p.take(i)) == q;
                assert(s.take(i) =~= p.take(i));
                assert(s.subrange(i, j) =~= p.subrange(i, j));
                assert(is_line_at(s, i, j));
            }
        } else {
            lemma_pieces_are_lines(p, q);
            let (i, j) = choose|i: int, j: int|
                is_line_at(p, i, j) && text_lines(p)[q] == p.subrange(i, j) && line_feeds(p.take(i)) == q;
            lemma_line_feeds_range(p, i, n);
            assert(s.take(i) =~= p.take(i));
            if q < ls.len() - 1 {
                if j == n {
                    assert(false);
                }
                assert(s.subrange(i, j) =~= p.subrange(i, j));
                assert(is_line_at(s, i, j));
            } else {
                if j < n {
                    assert(p[j] == '\n');
                    assert(false);
                }
                assert(s.subrange(i, s.len() as int) =~= p.subrange(i, n).push(c));
                assert(is_line_at(s, i, s.len() as int));
            }
        }
    }
}

/// A signature is listed exactly when some line gives it.
proof fn lemma_listed_contains(lines: Seq<Seq<char>>, x: Seq<char>)
    ensures
        listed_signatures(lines).contains(x) <==> exists|q: int|
            0 <= q < lines.len() && trim(#[trigger] lines[q]).len() > 0 && trim(lines[q])[0] != '#' && x
                == spec_normalize(trim(lines[q])),
    decreases lines.len(),
{
    if lines.len() > 0 {
        let p = lines.drop_last();
        lemma_listed_contains(p, x);
        let r = listed_signatures(p);
        let t = trim(lines.last());
        if is_signature_line(t) {
            let r2 = r.push(spec_normalize(t));
            assert(r2[r.len() as int] == spec_normalize(t));
            if r2.contains(x) {
                let k = choose|k: int| 0 <= k < r2.len() && r2[k] == x;
                if k < r.len() {
                    assert(r[k] == x);
                } else {
                    assert(lines[lines.len() - 1] == lines.last());
                }
            }
            if r.contains(x) {
                let k = choose|k: int| 0 <= k < r.len() && r[k] == x;
                assert(r2[k] == x);
            }
        }
        if exists|q: int|
            0 <= q < lines.len() && trim(#[trigger] lines[q]).len() > 0 && trim(lines[q])[0] != '#' && x
                == spec_normalize(trim(lines[q])) {
            let q = choose|q: int|
                0 <= q < lines.len() && trim(#[trigger] lines[q]).len() > 0 && trim(lines[q])[0] != '#' && x
                    == spec_normalize(trim(lines[q]));
            if q < lines.len() - 1 {
                assert(p[q] == lines[q]);
            }
        }
        if exists|q: int|
            0 <= q < p.len() && trim(#[trigger] p[q]).len() > 0 && trim(p[q])[0] != '#' && x == spec_normalize(
                trim(p[q]),
            ) {
            let q = choose|q: int|
                0 <= q < p.len() && trim(#[trigger] p[q]).len() > 0 && trim(p[q])[0] != '#' && x
                    == spec_normalize(trim(p[q]));
            assert(lines[q] == p[q]);
        }
    }
}

/// A signature list holds exactly the signatures its lines give: every line,
/// the last one too whether or not a line feed ends it, that trims to
/// something other than a blank or a `#` comment gives its signature in
/// internal form.
pub proof fn lemma_signature_list_lines(text: Seq<char>, s: Seq<char>)
    ensures
        spec_signature_list(text).contains(s) <==> exists|i: int, j: int| #[trigger] line_gives(text, s, i, j),
{
    let ls = text_lines(text);
    crate::text::lemma_dedup(listed_signatures(ls));
    lemma_listed_contains(ls, s);
    if spec_signature_list(text).contains(s) {
        let q = choose|q: int|
            0 <= q < ls.len() && trim(#[trigger] ls[q]).len() > 0 && trim(ls[q])[0] != '#' && s == spec_normalize(
                trim(ls[q]),
            );
        lemma_pieces_are_lines(text, q);
        let (i, j) = choose|i: int, j: int|
            is_line_at(text, i, j) && text_lines(text)[q] == text.subrange(i, j) && line_feeds(text.take(i)) == q;
        assert(line_gives(text, s, i, j));
    }
    if exists|i: int, j: int| #[trigger] line_gives(text, s, i, j) {
        let (i, j) = choose|i: int, j: int| #[trigger] line_gives(text, s, i, j);
        lemma_line_in_pieces(text, i, j);
        let q = line_feeds(text.take(i)) as int;
        assert(ls[q] == text.subrange(i, j));
    }
}

/// `spec_normalize(v[lo..hi])`.
fn normalize_at(v: &Vec<char>, lo: usize, hi: usize) -> (r: String)
    requires
        lo <= hi <= v@.len(),
    ensures
        r@ == spec_normalize(v@.subrange(lo as int, hi as int)),
{
    let ghost line = v@.subrange(lo as int, hi as int);
    match find_char_at(v, lo, hi, '(') {
        None => replace_char_at(v, lo, hi, '.', '/'),
        Some(i) => {
            assert(line.take(i - lo) =~= v@.subrange(lo as int, i as int));
            match rfind_char_at(v, lo, i, '.') {
                None => replace_char_at(v, lo, hi, '.', '/'),
                Some(j) => {
                    let ghost before = v@.subrange(lo as int, i as int);
                    assert(before.take(j - lo) =~= v@.subrange(lo as int, j as int));
                    assert(before.skip(j - lo + 1) =~= v@.subrange(j + 1, i as int));
                    assert(line.skip(i - lo + 1) =~= v@.subrange(i + 1, hi as int));
                    let mut s = replace_char_at(v, lo, j, '.', '/');
                    push_char(&mut s, '.');
                    append_range(&mut s, v, j + 1, i);
                    push_char(&mut s, '(');
                    append_range(&mut s, v, i + 1, hi);
                    s
                },
            }
        },
    }
}

/// Accept either internal (`owner/name+desc`) or dotted (`owner.name+desc`)
/// owners in a signature line, giving the internal form the graph keys on.
pub fn normalize(line: &str) -> (r: String)
    ensures
        r@ == spec_normalize(line@),
{
    let v = chars_of(line);
    assert(v@.subrange(0, v@.len() as int) =~= v@);
    normalize_at(&v, 0, v.len())
}

/// Adds the signature of one line of a signature list, if it holds one.
fn take_signature_line(out: &mut UniqueStrings, line: &Vec<char>)
    requires
        old(out).wf(),
    ensures
        final(out).wf(),
        final(out)@ == (if is_signature_line(trim(line@)) {
            let x = spec_normalize(trim(line@));
            if old(out)@.contains(x) { old(out)@ } else { old(out)@.push(x) }
        } else {
            old(out)@
        }),
{
    assert(line@.subrange(0, line@.len() as int) =~= line@);
    let (a, b) = trim_at(line, 0, line.len());
    proof {
        if b > a {
            assert(line@.subrange(a as int, b as int)[0] == line@[a as int]);
        }
    }
    if b > a && line[a] != '#' {
        let x = normalize_at(line, a, b);
        out.add(x);
    }
}

/// The one-line-one-signature text of a public-API list read as the oracle:
/// lines are trimmed, blanks and `#` comments skipped, each signature
/// normalized; each signature is kept once.
pub fn parse_signature_list(text: &str) -> (r: Vec<String>)
    ensures
        strings_view(r@) == spec_signature_list(text@),
{
    let mut out = UniqueStrings::new();
    let mut line: Vec<char> = Vec::new();
    let ghost mut p: Seq<char> = Seq::empty();
    proof {
        assert(text_lines(p).drop_last() =~= Seq::<Seq<char>>::empty());
    }
    for c in it: text.chars()
        invariant
            out.wf(),
            p == it.seq().take(it.index() as int),
            out@ == dedup(listed_signatures(text_lines(p).drop_last())),
            line@ == text_lines(p).last(),
    {
        let ghost ls = text_lines(p);
        proof {
            lemma_text_lines_nonempty(p);
            assert(it.seq().take(it.index() + 1) =~= p.push(c));
            assert(p.push(c).drop_last() =~= p);
        }
        if c == '\n' {
            take_signature_line(&mut out, &line);
            line = Vec::new();
            proof {
                assert(ls =~= ls.drop_last().push(ls.last()));
                assert(text_lines(p.push(c)) == ls.push(Seq::<char>::empty()));
                assert(ls.push(Seq::<char>::empty()).drop_last() =~= ls);
                let l0 = listed_signatures(ls.drop_last());
                if is_signature_line(trim(ls.last())) {
                    assert(l0.push(spec_normalize(trim(ls.last()))).drop_last() =~= l0);
                }
                assert(line@ =~= Seq::<char>::empty());
            }
        } else {
            line.push(c);
            proof {
                let nl = ls.update(ls.len() - 1, ls.last().push(c));
                assert(text_lines(p.push(c)) == nl);
                assert(nl.drop_last() =~= ls.drop_last());
            }
        }
        proof {
            p = p.push(c);
        }
    }
    let ghost ls = text_lines(text@);
    proof {
        assert(p =~= text@);
        lemma_text_lines_nonempty(text@);
        assert(ls =~= ls.drop_last().push(ls.last()));
        let l0 = listed_signatures(ls.drop_last());
        if is_signature_line(trim(ls.last())) {
            assert(l0.push(spec_normalize(trim(ls.last()))).drop_last() =~= l0);
        }
    }
    take_signature_line(&mut out, &line);
    out.into_vec()
}

/// The oracle of an SDK's classes: `owner.name+desc` of every method they
/// declare, each once.
pub fn sdk_signatures(classes: &Vec<Class>) -> (r: Vec<String>)
    ensures
        strings_view(r@) == spec_sdk_signatures(classes_view(classes@)),
{
    let ghost cs = classes_view(classes@);
    let mut out = UniqueStrings::new();
    let mut i: usize = 0;
    while i < classes.len()
        invariant
            i <= classes@.len(),
            cs == classes_view(classes@),
            out.wf(),
            out@ == dedup(all_signatures(cs.take(i as int))),
        decreases classes.len() - i,
    {
        let c = &classes[i];
        let ghost base = all_signatures(cs.take(i as int));
        let mut j: usize = 0;
        while j < c.methods.len()
            invariant
                i < classes@.len(),
                c == classes@[i as int],
                j <= c.methods@.len(),
                out.wf(),
                out@ == dedup(base + class_signatures(c@).take(j as int)),
            decreases c.methods.len() - j,
        {
            let m: &Method = &c.methods[j];
            let mut s = c.name.clone();
            push_char(&mut s, '.');
            crate::text::append_str(&mut s, m.name.as_str());
            crate::text::append_str(&mut s, m.desc.as_str());
            proof {
                assert(class_signatures(c@)[j as int] == s@);
                assert(base + class_signatures(c@).take(j + 1) =~= (base + class_signatures(
                    c@,
                ).take(j as int)).push(s@));
                assert((base + class_signatures(c@).take(j as int)).push(s@).drop_last() =~= base
                    + class_signatures(c@).take(j as int));
            }
            out.add(s);
            j = j + 1;
        }
        proof {
            assert(class_signatures(c@).take(c.methods@.len() as int) =~= class_signatures(c@));
            assert(cs.take(i + 1).drop_last() =~= cs.take(i as int));
        }
        i = i + 1;
    }
    assert(cs.take(classes@.len() as int) =~= cs);
    out.into_vec()
}

} // verus!
