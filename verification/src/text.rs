//! Character-level text utilities shared by the decoders. A string is modelled
//! by its view, the sequence of its `char`s; the executable helpers work on a
//! window `v[lo..hi]` of a character vector and answer in absolute positions.

use vstd::prelude::*;
use vstd::hash_set::StringHashSet;

verus! {

// ---------------------------------------------------------------------------
// Specifications
// ---------------------------------------------------------------------------

/// `char::is_whitespace`: the Unicode `White_Space` property.
pub open spec fn is_ws(c: char) -> bool {
    let u = c as u32;
    ||| 0x09 <= u <= 0x0d
    ||| u == 0x20
    ||| u == 0x85
    ||| u == 0xa0
    ||| u == 0x1680
    ||| 0x2000 <= u <= 0x200a
    ||| u == 0x2028
    ||| u == 0x2029
    ||| u == 0x202f
    ||| u == 0x205f
    ||| u == 0x3000
}

/// `str::trim_start`: drops the leading whitespace.
pub open spec fn trim_start(s: Seq<char>) -> Seq<char>
    decreases s.len(),
{
    if s.len() > 0 && is_ws(s[0]) {
        trim_start(s.drop_first())
    } else {
        s
    }
}

/// `str::trim_end`: drops the trailing whitespace.
pub open spec fn trim_end(s: Seq<char>) -> Seq<char>
    decreases s.len(),
{
    if s.len() > 0 && is_ws(s.last()) {
        trim_end(s.drop_last())
    } else {
        s
    }
}

/// `str::trim`: drops whitespace at both ends.
pub open spec fn trim(s: Seq<char>) -> Seq<char> {
    trim_end(trim_start(s))
}

/// `s` begins with `p`.
pub open spec fn starts_with(s: Seq<char>, p: Seq<char>) -> bool {
    p.len() <= s.len() && s.take(p.len() as int) == p
}

/// `s` ends with `p`.
pub open spec fn ends_with(s: Seq<char>, p: Seq<char>) -> bool {
    p.len() <= s.len() && s.skip(s.len() - p.len()) == p
}

/// The first position at or after `i` that holds `c`.
pub open spec fn find_char_from(s: Seq<char>, c: char, i: int) -> Option<int>
    decreases s.len() - i,
{
    if i < 0 || i >= s.len() {
        None
    } else if s[i] == c {
        Some(i)
    } else {
        find_char_from(s, c, i + 1)
    }
}

/// The first position of `c` in `s` (`str::find` with a `char`).
pub open spec fn find_char(s: Seq<char>, c: char) -> Option<int> {
    find_char_from(s, c, 0)
}

/// The last position before `i` that holds `c`.
pub open spec fn rfind_char_before(s: Seq<char>, c: char, i: int) -> Option<int>
    decreases i,
{
    if i <= 0 || i > s.len() {
        None
    } else if s[i - 1] == c {
        Some(i - 1)
    } else {
        rfind_char_before(s, c, i - 1)
    }
}

/// The last position of `c` in `s` (`str::rfind` with a `char`).
pub open spec fn rfind_char(s: Seq<char>, c: char) -> Option<int> {
    rfind_char_before(s, c, s.len() as int)
}

/// `p` occurs in `s` at position `i`.
pub open spec fn occurs_at(s: Seq<char>, p: Seq<char>, i: int) -> bool {
    0 <= i && i + p.len() <= s.len() && s.subrange(i, i + p.len()) == p
}

/// The first position at or after `i` where `p` occurs.
pub open spec fn find_pat_from(s: Seq<char>, p: Seq<char>, i: int) -> Option<int>
    decreases s.len() + 1 - i,
{
    if i < 0 || i + p.len() > s.len() {
        None
    } else if occurs_at(s, p, i) {
        Some(i)
    } else {
        find_pat_from(s, p, i + 1)
    }
}

/// The first position where `p` occurs in `s` (`str::find` with a `&str`).
pub open spec fn find_pat(s: Seq<char>, p: Seq<char>) -> Option<int> {
    find_pat_from(s, p, 0)
}

/// The first position at or after `i` that holds whitespace.
pub open spec fn find_ws_from(s: Seq<char>, i: int) -> Option<int>
    decreases s.len() - i,
{
    if i < 0 || i >= s.len() {
        None
    } else if is_ws(s[i]) {
        Some(i)
    } else {
        find_ws_from(s, i + 1)
    }
}

/// `str::replace` of one character by another.
pub open spec fn replace_char(s: Seq<char>, from: char, to: char) -> Seq<char> {
    s.map_values(|x: char| if x == from { to } else { x })
}

/// The pieces of `s` between line feeds, in order; `s` without a line feed is
/// one piece. (`str::lines` also drops a final empty piece and a `'\r'` before
/// each line feed; the decoders trim every line and ignore empty ones, so they
/// read the same either way.)
pub open spec fn text_lines(s: Seq<char>) -> Seq<Seq<char>>
    decreases s.len(),
{
    if s.len() == 0 {
        seq![Seq::<char>::empty()]
    } else {
        let ls = text_lines(s.drop_last());
        if s.last() == '\n' {
            ls.push(Seq::<char>::empty())
        } else {
            ls.update(ls.len() - 1, ls.last().push(s.last()))
        }
    }
}

/// The decimal digits of `n`, as `usize::to_string` writes them.
pub open spec fn decimal(n: nat) -> Seq<char>
    decreases n,
{
    if n < 10 {
        seq![digit_char(n)]
    } else {
        decimal(n / 10).push(digit_char(n % 10))
    }
}

/// The character of a decimal digit.
pub open spec fn digit_char(d: nat) -> char {
    if d == 0 { '0' }
    else if d == 1 { '1' }
    else if d == 2 { '2' }
    else if d == 3 { '3' }
    else if d == 4 { '4' }
    else if d == 5 { '5' }
    else if d == 6 { '6' }
    else if d == 7 { '7' }
    else if d == 8 { '8' }
    else { '9' }
}

/// `s` repeated `n` times.
pub open spec fn repeat(s: Seq<char>, n: nat) -> Seq<char>
    decreases n,
{
    if n == 0 {
        Seq::<char>::empty()
    } else {
        repeat(s, (n - 1) as nat) + s
    }
}


/// `s` with each element after its first occurrence left out.
pub open spec fn dedup<A>(s: Seq<A>) -> Seq<A>
    decreases s.len(),
{
    if s.len() == 0 {
        Seq::<A>::empty()
    } else {
        let d = dedup(s.drop_last());
        if d.contains(s.last()) {
            d
        } else {
            d.push(s.last())
        }
    }
}

/// The views of a sequence of strings.
pub open spec fn strings_view(s: Seq<String>) -> Seq<Seq<char>> {
    s.map_values(|x: String| x@)
}

/// `dedup` keeps exactly the elements of `s`, each once.
pub proof fn lemma_dedup<A>(s: Seq<A>)
    ensures
        forall|x: A| dedup(s).contains(x) <==> s.contains(x),
        dedup(s).no_duplicates(),
    decreases s.len(),
{
    if s.len() > 0 {
        lemma_dedup(s.drop_last());
        let d = dedup(s.drop_last());
        assert forall|x: A| s.drop_last().contains(x) implies s.contains(x) by {
            let k = choose|k: int| 0 <= k < s.drop_last().len() && s.drop_last()[k] == x;
            assert(s[k] == x);
        }
        assert forall|x: A| #[trigger] s.contains(x) implies s.drop_last().contains(x) || x == s.last() by {
            let k = choose|k: int| 0 <= k < s.len() && s[k] == x;
            if k < s.len() - 1 {
                assert(s.drop_last()[k] == x);
            }
        }
        if !d.contains(s.last()) {
            assert(d.push(s.last())[d.len() as int] == s.last());
            assert forall|x: A| d.push(s.last()).contains(x) implies d.contains(x) || x == s.last() by {
                let k = choose|k: int| 0 <= k < d.len() + 1 && d.push(s.last())[k] == x;
                if k < d.len() {
                    assert(d[k] == x);
                }
            }
            assert forall|x: A| d.contains(x) implies d.push(s.last()).contains(x) by {
                let k = choose|k: int| 0 <= k < d.len() && d[k] == x;
                assert(d.push(s.last())[k] == x);
            }
        }
    }
}

/// `text_lines` always yields at least one piece.
pub proof fn lemma_text_lines_nonempty(s: Seq<char>)
    ensures
        text_lines(s).len() >= 1,
    decreases s.len(),
{
    if s.len() > 0 {
        lemma_text_lines_nonempty(s.drop_last());
    }
}


/// What a found position is: in range and holding `c`, after none.
pub proof fn lemma_find_char_from(s: Seq<char>, c: char, i: int)
    ensures
        find_char_from(s, c, i) matches Some(k) ==> 0 <= i <= k < s.len() && s[k] == c && (
        forall|j: int| i <= j < k ==> s[j] != c),
        find_char_from(s, c, i) is None ==> forall|j: int| 0 <= i <= j < s.len() ==> s[j] != c,
    decreases s.len() - i,
{
    if 0 <= i < s.len() && s[i] != c {
        lemma_find_char_from(s, c, i + 1);
    }
}

/// What a position found from the end is: in range and holding `c`, with none after.
pub proof fn lemma_rfind_char_before(s: Seq<char>, c: char, i: int)
    ensures
        rfind_char_before(s, c, i) matches Some(k) ==> 0 <= k < i <= s.len() && s[k] == c && (
        forall|j: int| k < j < i ==> s[j] != c),
        rfind_char_before(s, c, i) is None ==> (0 <= i <= s.len() ==> forall|j: int|
            0 <= j < i ==> s[j] != c),
    decreases i,
{
    if 0 < i <= s.len() && s[i - 1] != c {
        lemma_rfind_char_before(s, c, i - 1);
    }
}

/// What a found occurrence is: in range.
pub proof fn lemma_find_pat_from(s: Seq<char>, p: Seq<char>, i: int)
    ensures
        find_pat_from(s, p, i) matches Some(k) ==> 0 <= i <= k && k + p.len() <= s.len()
            && occurs_at(s, p, k),
    decreases s.len() + 1 - i,
{
    if 0 <= i && i + p.len() <= s.len() && !occurs_at(s, p, i) {
        lemma_find_pat_from(s, p, i + 1);
    }
}

/// What a found whitespace position is: in range and whitespace.
pub proof fn lemma_find_ws_from(s: Seq<char>, i: int)
    ensures
        find_ws_from(s, i) matches Some(k) ==> 0 <= i <= k < s.len() && is_ws(s[k]) && (
        forall|j: int| i <= j < k ==> !is_ws(s[j])),
        find_ws_from(s, i) is None ==> forall|j: int| 0 <= i <= j < s.len() ==> !is_ws(s[j]),
    decreases s.len() - i,
{
    if 0 <= i < s.len() && !is_ws(s[i]) {
        lemma_find_ws_from(s, i + 1);
    }
}

// ---------------------------------------------------------------------------
// Executable helpers
// ---------------------------------------------------------------------------

/// `String::push`: appends one character to the string.
#[verifier::external_body]
pub(crate) fn push_char(s: &mut String, c: char)
    ensures
        final(s)@ == old(s)@.push(c),
{
    s.push(c);
}

/// The characters of `s`, in order.
pub fn chars_of(s: &str) -> (v: Vec<char>)
    ensures
        v@ == s@,
{
    let mut v: Vec<char> = Vec::new();
    for c in it: s.chars()
        invariant
            v@ == it.seq().take(it.index() as int),
    {
        v.push(c);
    }
    v
}

/// The string made of `v[lo..hi]`.
pub fn string_of(v: &Vec<char>, lo: usize, hi: usize) -> (s: String)
    requires
        lo <= hi <= v@.len(),
    ensures
        s@ == v@.subrange(lo as int, hi as int),
{
    let mut s = String::new();
    let mut i = lo;
    while i < hi
        invariant
            lo <= i <= hi <= v@.len(),
            s@ == v@.subrange(lo as int, i as int),
        decreases hi - i,
    {
        push_char(&mut s, v[i]);
        assert(v@.subrange(lo as int, i + 1) == v@.subrange(lo as int, i as int).push(v@[i as int]));
        i = i + 1;
    }
    s
}

/// Appends the characters of `v` to `s`.
pub fn append_chars(s: &mut String, v: &Vec<char>)
    ensures
        final(s)@ == old(s)@ + v@,
{
    let ghost s0 = s@;
    let mut i: usize = 0;
    while i < v.len()
        invariant
            i <= v@.len(),
            s@ == s0 + v@.take(i as int),
        decreases v.len() - i,
    {
        push_char(s, v[i]);
        assert(v@.take(i + 1) == v@.take(i as int).push(v@[i as int]));
        i = i + 1;
    }
    assert(v@.take(v@.len() as int) == v@);
}

/// Appends `t` to `s`.
pub fn append_str(s: &mut String, t: &str)
    ensures
        final(s)@ == old(s)@ + t@,
{
    let v = chars_of(t);
    append_chars(s, &v);
}


/// Appends the characters of `v[lo..hi]` to `s`.
pub fn append_range(s: &mut String, v: &Vec<char>, lo: usize, hi: usize)
    requires
        lo <= hi <= v@.len(),
    ensures
        final(s)@ == old(s)@ + v@.subrange(lo as int, hi as int),
{
    let ghost s0 = s@;
    let mut i = lo;
    while i < hi
        invariant
            lo <= i <= hi <= v@.len(),
            s@ == s0 + v@.subrange(lo as int, i as int),
        decreases hi - i,
    {
        push_char(s, v[i]);
        assert(v@.subrange(lo as int, i + 1) =~= v@.subrange(lo as int, i as int).push(v@[i as int]));
        i = i + 1;
    }
}

/// Strings in the order they were first added, each once.
pub struct UniqueStrings {
    items: Vec<String>,
    seen: StringHashSet,
}

impl View for UniqueStrings {
    type V = Seq<Seq<char>>;

    closed spec fn view(&self) -> Seq<Seq<char>> {
        strings_view(self.items@)
    }
}

impl UniqueStrings {
    /// The set of the strings equals the sequence's.
    pub closed spec fn wf(&self) -> bool {
        forall|x: Seq<char>| self.seen@.contains(x) <==> strings_view(self.items@).contains(x)
    }

    /// No string yet.
    pub fn new() -> (r: UniqueStrings)
        ensures
            r.wf(),
            r@ == Seq::<Seq<char>>::empty(),
    {
        let r = UniqueStrings { items: Vec::new(), seen: StringHashSet::new() };
        assert(strings_view(r.items@) =~= Seq::<Seq<char>>::empty());
        r
    }

    /// Whether `x` was added.
    pub fn contains(&self, x: &str) -> (b: bool)
        requires
            self.wf(),
        ensures
            b == self@.contains(x@),
    {
        self.seen.contains(x)
    }

    /// Adds `x` unless it is already there.
    pub fn add(&mut self, x: String)
        requires
            old(self).wf(),
        ensures
            final(self).wf(),
            final(self)@ == (if old(self)@.contains(x@) { old(self)@ } else { old(self)@.push(x@) }),
    {
        if !self.seen.contains(x.as_str()) {
            let ghost v0 = strings_view(self.items@);
            let y = x.clone();
            self.seen.insert(y);
            self.items.push(x);
            assert(strings_view(self.items@) =~= v0.push(x@));
            assert forall|z: Seq<char>| self.seen@.contains(z) <==> strings_view(self.items@).contains(z) by {
                if z == x@ {
                    assert(strings_view(self.items@)[v0.len() as int] == z);
                } else if strings_view(self.items@).contains(z) {
                    let k = choose|k: int| 0 <= k < strings_view(self.items@).len() && strings_view(self.items@)[k] == z;
                    assert(v0[k] == z);
                } else if v0.contains(z) {
                    let k = choose|k: int| 0 <= k < v0.len() && v0[k] == z;
                    assert(strings_view(self.items@)[k] == z);
                }
            }
        }
    }

    /// The number of strings.
    pub fn len(&self) -> (n: usize)
        ensures
            n == self@.len(),
    {
        self.items.len()
    }

    /// The `i`-th string.
    pub fn get(&self, i: usize) -> (r: &String)
        requires
            i < self@.len(),
        ensures
            r@ == self@[i as int],
    {
        &self.items[i]
    }

    /// The strings, in order.
    pub fn into_vec(self) -> (v: Vec<String>)
        ensures
            strings_view(v@) == self@,
    {
        self.items
    }
}

/// `char::is_whitespace`.
pub fn is_whitespace(c: char) -> (b: bool)
    ensures
        b == is_ws(c),
{
    let u = c as u32;
    (0x09 <= u && u <= 0x0d) || u == 0x20 || u == 0x85 || u == 0xa0 || u == 0x1680
        || (0x2000 <= u && u <= 0x200a) || u == 0x2028 || u == 0x2029 || u == 0x202f
        || u == 0x205f || u == 0x3000
}

/// Start of `trim_start(v[lo..hi])`.
pub fn trim_start_at(v: &Vec<char>, lo: usize, hi: usize) -> (k: usize)
    requires
        lo <= hi <= v@.len(),
    ensures
        lo <= k <= hi,
        v@.subrange(k as int, hi as int) == trim_start(v@.subrange(lo as int, hi as int)),
{
    let mut k = lo;
    while k < hi && is_whitespace(v[k])
        invariant
            lo <= k <= hi <= v@.len(),
            trim_start(v@.subrange(k as int, hi as int)) == trim_start(
                v@.subrange(lo as int, hi as int),
            ),
        decreases hi - k,
    {
        assert(v@.subrange(k as int, hi as int).drop_first() == v@.subrange(k + 1, hi as int));
        k = k + 1;
    }
    k
}

/// End of `trim_end(v[lo..hi])`.
pub fn trim_end_at(v: &Vec<char>, lo: usize, hi: usize) -> (k: usize)
    requires
        lo <= hi <= v@.len(),
    ensures
        lo <= k <= hi,
        v@.subrange(lo as int, k as int) == trim_end(v@.subrange(lo as int, hi as int)),
{
    let mut k = hi;
    while k > lo && is_whitespace(v[k - 1])
        invariant
            lo <= k <= hi <= v@.len(),
            trim_end(v@.subrange(lo as int, k as int)) == trim_end(
                v@.subrange(lo as int, hi as int),
            ),
        decreases k - lo,
    {
        assert(v@.subrange(lo as int, k as int).drop_last() == v@.subrange(lo as int, k - 1));
        k = k - 1;
    }
    k
}

/// Bounds of `trim(v[lo..hi])`.
pub fn trim_at(v: &Vec<char>, lo: usize, hi: usize) -> (r: (usize, usize))
    requires
        lo <= hi <= v@.len(),
    ensures
        lo <= r.0 <= r.1 <= hi,
        v@.subrange(r.0 as int, r.1 as int) == trim(v@.subrange(lo as int, hi as int)),
{
    let a = trim_start_at(v, lo, hi);
    let b = trim_end_at(v, a, hi);
    (a, b)
}

/// Whether `v[lo..hi]` begins with `p`.
pub fn starts_with_at(v: &Vec<char>, lo: usize, hi: usize, p: &Vec<char>) -> (b: bool)
    requires
        lo <= hi <= v@.len(),
    ensures
        b == starts_with(v@.subrange(lo as int, hi as int), p@),
{
    if p.len() > hi - lo {
        return false;
    }
    let mut i: usize = 0;
    while i < p.len()
        invariant
            i <= p@.len() <= hi - lo,
            lo <= hi <= v@.len(),
            forall|j: int| 0 <= j < i ==> v@[lo + j] == p@[j],
        decreases p.len() - i,
    {
        if v[lo + i] != p[i] {
            assert(v@.subrange(lo as int, hi as int).take(p@.len() as int)[i as int] != p@[i as int]);
            return false;
        }
        i = i + 1;
    }
    assert(v@.subrange(lo as int, hi as int).take(p@.len() as int) =~= p@);
    true
}

/// Whether `v[lo..hi]` ends with `p`.
pub fn ends_with_at(v: &Vec<char>, lo: usize, hi: usize, p: &Vec<char>) -> (b: bool)
    requires
        lo <= hi <= v@.len(),
    ensures
        b == ends_with(v@.subrange(lo as int, hi as int), p@),
{
    if p.len() > hi - lo {
        return false;
    }
    let start = hi - p.len();
    let r = starts_with_at(v, start, hi, p);
    assert(v@.subrange(lo as int, hi as int).skip((hi - lo) - p@.len()) =~= v@.subrange(
        start as int,
        hi as int,
    ));
    assert(v@.subrange(start as int, hi as int).take(p@.len() as int) =~= v@.subrange(
        start as int,
        hi as int,
    ));
    r
}

/// First position of `c` in `v[lo..hi]`, as an absolute index.
pub fn find_char_at(v: &Vec<char>, lo: usize, hi: usize, c: char) -> (r: Option<usize>)
    requires
        lo <= hi <= v@.len(),
    ensures
        match r {
            Some(k) => lo <= k < hi && v@[k as int] == c && find_char(
                v@.subrange(lo as int, hi as int),
                c,
            ) == Some(k - lo),
            None => find_char(v@.subrange(lo as int, hi as int), c) is None,
        },
{
    proof {
        lemma_find_char_from(v@.subrange(lo as int, hi as int), c, 0);
    }
    let ghost s = v@.subrange(lo as int, hi as int);
    let mut k = lo;
    while k < hi
        invariant
            lo <= k <= hi <= v@.len(),
            s == v@.subrange(lo as int, hi as int),
            find_char(s, c) == find_char_from(s, c, k - lo),
        decreases hi - k,
    {
        if v[k] == c {
            return Some(k);
        }
        k = k + 1;
    }
    None
}

/// Last position of `c` in `v[lo..hi]`, as an absolute index.
pub fn rfind_char_at(v: &Vec<char>, lo: usize, hi: usize, c: char) -> (r: Option<usize>)
    requires
        lo <= hi <= v@.len(),
    ensures
        match r {
            Some(k) => lo <= k < hi && v@[k as int] == c && rfind_char(
                v@.subrange(lo as int, hi as int),
                c,
            ) == Some(k - lo),
            None => rfind_char(v@.subrange(lo as int, hi as int), c) is None,
        },
{
    proof {
        lemma_rfind_char_before(v@.subrange(lo as int, hi as int), c, (hi - lo) as int);
    }
    let ghost s = v@.subrange(lo as int, hi as int);
    let mut k = hi;
    while k > lo
        invariant
            lo <= k <= hi <= v@.len(),
            s == v@.subrange(lo as int, hi as int),
            rfind_char(s, c) == rfind_char_before(s, c, k - lo),
        decreases k - lo,
    {
        if v[k - 1] == c {
            return Some(k - 1);
        }
        k = k - 1;
    }
    None
}

/// First position of whitespace in `v[lo..hi]`, as an absolute index.
pub fn find_ws_at(v: &Vec<char>, lo: usize, hi: usize) -> (r: Option<usize>)
    requires
        lo <= hi <= v@.len(),
    ensures
        match r {
            Some(k) => lo <= k < hi && find_ws_from(v@.subrange(lo as int, hi as int), 0) == Some(
                k - lo,
            ),
            None => find_ws_from(v@.subrange(lo as int, hi as int), 0) is None,
        },
{
    proof {
        lemma_find_ws_from(v@.subrange(lo as int, hi as int), 0);
    }
    let ghost s = v@.subrange(lo as int, hi as int);
    let mut k = lo;
    while k < hi
        invariant
            lo <= k <= hi <= v@.len(),
            s == v@.subrange(lo as int, hi as int),
            find_ws_from(s, 0) == find_ws_from(s, k - lo),
        decreases hi - k,
    {
        if is_whitespace(v[k]) {
            return Some(k);
        }
        k = k + 1;
    }
    None
}

/// First position of `p` in `v[lo..hi]`, as an absolute index.
pub fn find_pat_at(v: &Vec<char>, lo: usize, hi: usize, p: &Vec<char>) -> (r: Option<usize>)
    requires
        lo <= hi <= v@.len(),
    ensures
        match r {
            Some(k) => lo <= k && k + p@.len() <= hi && find_pat(
                v@.subrange(lo as int, hi as int),
                p@,
            ) == Some(k - lo),
            None => find_pat(v@.subrange(lo as int, hi as int), p@) is None,
        },
{
    proof {
        lemma_find_pat_from(v@.subrange(lo as int, hi as int), p@, 0);
    }
    let ghost s = v@.subrange(lo as int, hi as int);
    if p.len() > hi - lo {
        return None;
    }
    if p.len() == 0 {
        assert(s.subrange(0, 0) =~= p@);
        return Some(lo);
    }
    let mut k = lo;
    while k <= hi - p.len()
        invariant
            lo <= k <= hi <= v@.len(),
            1 <= p@.len() <= hi - lo,
            s == v@.subrange(lo as int, hi as int),
            find_pat(s, p@) == find_pat_from(s, p@, k - lo),
        decreases hi + 1 - k,
    {
        let m = starts_with_at(v, k, hi, p);
        proof {
            assert(v@.subrange(k as int, hi as int).take(p@.len() as int) =~= s.subrange(
                k - lo,
                k - lo + p@.len(),
            ));
        }
        if m {
            return Some(k);
        }
        k = k + 1;
    }
    None
}

/// `v[lo..hi]` with every `from` replaced by `to`, as a string.
pub fn replace_char_at(v: &Vec<char>, lo: usize, hi: usize, from: char, to: char) -> (s: String)
    requires
        lo <= hi <= v@.len(),
    ensures
        s@ == replace_char(v@.subrange(lo as int, hi as int), from, to),
{
    let ghost w = v@.subrange(lo as int, hi as int);
    let mut s = String::new();
    let mut i = lo;
    while i < hi
        invariant
            lo <= i <= hi <= v@.len(),
            w == v@.subrange(lo as int, hi as int),
            s@ == replace_char(w.take(i - lo), from, to),
        decreases hi - i,
    {
        let c = v[i];
        if c == from {
            push_char(&mut s, to);
        } else {
            push_char(&mut s, c);
        }
        assert(replace_char(w.take(i + 1 - lo), from, to) =~= replace_char(
            w.take(i - lo),
            from,
            to,
        ).push(if c == from { to } else { c }));
        i = i + 1;
    }
    assert(w.take(hi - lo) =~= w);
    s
}

/// `n` in decimal, as `usize::to_string` writes it.
pub fn decimal_string(n: usize) -> (s: String)
    ensures
        s@ == decimal(n as nat),
    decreases n,
{
    if n < 10 {
        let mut s = String::new();
        push_char(&mut s, digit(n));
        s
    } else {
        let mut s = decimal_string(n / 10);
        push_char(&mut s, digit(n % 10));
        s
    }
}

/// The character of the decimal digit `d`.
pub fn digit(d: usize) -> (c: char)
    requires
        d < 10,
    ensures
        c == digit_char(d as nat),
{
    if d == 0 { '0' }
    else if d == 1 { '1' }
    else if d == 2 { '2' }
    else if d == 3 { '3' }
    else if d == 4 { '4' }
    else if d == 5 { '5' }
    else if d == 6 { '6' }
    else if d == 7 { '7' }
    else if d == 8 { '8' }
    else { '9' }
}

} // verus!
