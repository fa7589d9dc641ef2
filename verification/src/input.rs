//! Input selection: which files carry DEX code, which archive entries are
//! `classes*.dex` and the names they are written under, and the marking of
//! decoded classes with the jar they came from.

use vstd::prelude::*;
use crate::dex::{classes_view, Class, SpecClass};
use crate::text::{
    chars_of, ends_with, ends_with_at, push_char, replace_char, replace_char_at, rfind_char,
    rfind_char_at, starts_with, starts_with_at, string_of,
};

verus! {

/// The extension of a file name, as `Path::extension` reads it: the text
/// after the last `.`, unless that dot begins the name (or there is none).
pub open spec fn spec_extension(file_name: Seq<char>) -> Option<Seq<char>> {
    match rfind_char(file_name, '.') {
        Some(j) => if j > 0 {
            Some(file_name.skip(j + 1))
        } else {
            None
        },
        None => None,
    }
}

/// A file that may carry DEX code: a `.jar`, `.apk` or `.dex`.
pub open spec fn spec_is_dex_bearing(file_name: Seq<char>) -> bool {
    match spec_extension(file_name) {
        Some(e) => e == "jar"@ || e == "apk"@ || e == "dex"@,
        None => false,
    }
}

/// An archive entry holding DEX code: `classes*.dex`.
pub open spec fn spec_is_classes_dex(name: Seq<char>) -> bool {
    starts_with(name, "classes"@) && ends_with(name, ".dex"@)
}

/// An ASCII letter or digit.
pub open spec fn is_ascii_alnum(c: char) -> bool {
    let u = c as u32;
    (0x30 <= u <= 0x39) || (0x41 <= u <= 0x5a) || (0x61 <= u <= 0x7a)
}

/// `s` with every character but ASCII letters and digits made `_`.
pub open spec fn spec_sanitize(s: Seq<char>) -> Seq<char> {
    s.map_values(|c: char| if is_ascii_alnum(c) { c } else { '_' })
}

/// Whether a file name (a path's last component) names a `.jar`, `.apk` or
/// `.dex` file.
pub fn is_dex_bearing(file_name: &str) -> (b: bool)
    ensures
        b == spec_is_dex_bearing(file_name@),
{
    let v = chars_of(file_name);
    let n = v.len();
    assert(v@.subrange(0, n as int) =~= v@);
    match rfind_char_at(&v, 0, n, '.') {
        Some(j) => {
            if j == 0 {
                return false;
            }
            let ghost e = v@.subrange(j + 1, n as int);
            assert(v@.skip(j + 1) =~= e);
            proof {
                reveal_strlit("jar");
                reveal_strlit("apk");
                reveal_strlit("dex");
            }
            if n - (j + 1) != 3 {
                return false;
            }
            assert(e.take(3) =~= e);
            let jar = chars_of("jar");
            let apk = chars_of("apk");
            let dex = chars_of("dex");
            starts_with_at(&v, j + 1, n, &jar) || starts_with_at(&v, j + 1, n, &apk)
                || starts_with_at(&v, j + 1, n, &dex)
        },
        None => false,
    }
}

/// The extension of a file name (`Path::extension`).
pub fn extension(file_name: &str) -> (r: Option<String>)
    ensures
        match r {
            Some(e) => spec_extension(file_name@) == Some(e@),
            None => spec_extension(file_name@) is None,
        },
{
    let v = chars_of(file_name);
    let n = v.len();
    assert(v@.subrange(0, n as int) =~= v@);
    match rfind_char_at(&v, 0, n, '.') {
        Some(j) => {
            if j == 0 {
                return None;
            }
            assert(v@.skip(j + 1) =~= v@.subrange(j + 1, n as int));
            Some(string_of(&v, j + 1, n))
        },
        None => None,
    }
}

/// Whether an archive entry is `classes*.dex`.
pub fn is_classes_dex(name: &str) -> (b: bool)
    ensures
        b == spec_is_classes_dex(name@),
{
    let v = chars_of(name);
    let n = v.len();
    assert(v@.subrange(0, n as int) =~= v@);
    let classes = chars_of("classes");
    let dex = chars_of(".dex");
    starts_with_at(&v, 0, n, &classes) && ends_with_at(&v, 0, n, &dex)
}

/// The file name an extracted entry is written under: its `/` made `_`.
pub fn entry_file_name(name: &str) -> (r: String)
    ensures
        r@ == replace_char(name@, '/', '_'),
{
    let v = chars_of(name);
    assert(v@.subrange(0, v@.len() as int) =~= v@);
    replace_char_at(&v, 0, v.len(), '/', '_')
}

/// `s` with every character but ASCII letters and digits made `_`.
pub fn sanitize(s: &str) -> (r: String)
    ensures
        r@ == spec_sanitize(s@),
{
    let v = chars_of(s);
    let mut r = String::new();
    let mut i: usize = 0;
    while i < v.len()
        invariant
            i <= v@.len(),
            r@ == spec_sanitize(v@.take(i as int)),
        decreases v.len() - i,
    {
        let c = v[i];
        let u = c as u32;
        let keep = (0x30 <= u && u <= 0x39) || (0x41 <= u && u <= 0x5a) || (0x61 <= u && u <= 0x7a);
        if keep {
            push_char(&mut r, c);
        } else {
            push_char(&mut r, '_');
        }
        assert(spec_sanitize(v@.take(i + 1)) =~= spec_sanitize(v@.take(i as int)).push(
            if is_ascii_alnum(c) { c } else { '_' },
        ));
        i = i + 1;
    }
    assert(v@.take(v@.len() as int) =~= v@);
    r
}

/// The classes with their jar set to `jar`.
pub open spec fn tagged(cs: Seq<SpecClass>, jar: Seq<char>) -> Seq<SpecClass> {
    cs.map_values(|c: SpecClass| SpecClass { jar, ..c })
}

/// Marks each class as read from `jar`.
pub fn tag(classes: Vec<Class>, jar: &str) -> (r: Vec<Class>)
    ensures
        classes_view(r@) == tagged(classes_view(classes@), jar@),
{
    let ghost cs = classes_view(classes@);
    let mut classes = classes;
    let mut out: Vec<Class> = Vec::new();
    // Take the classes out in reverse, then put them back in order.
    let mut rev: Vec<Class> = Vec::new();
    while classes.len() > 0
        invariant
            cs.len() == classes@.len() + rev@.len(),
            forall|k: int| 0 <= k < classes@.len() ==> classes@[k]@ == #[trigger] cs[k],
            forall|k: int| 0 <= k < rev@.len() ==> (#[trigger] rev@[k])@ == cs[cs.len() - 1 - k],
        decreases classes.len(),
    {
        let c = classes.pop().unwrap();
        rev.push(c);
    }
    assert(classes_view(out@) =~= tagged(cs.take(0), jar@));
    while rev.len() > 0
        invariant
            cs.len() == out@.len() + rev@.len(),
            forall|k: int| 0 <= k < rev@.len() ==> (#[trigger] rev@[k])@ == cs[cs.len() - 1 - k],
            classes_view(out@) == tagged(cs.take(out@.len() as int), jar@),
        decreases rev.len(),
    {
        let ghost k = out@.len();
        let mut c = rev.pop().unwrap();
        c.jar = jar.to_owned();
        let ghost o0 = classes_view(out@);
        out.push(c);
        assert(classes_view(out@) =~= o0.push(c@));
        assert(tagged(cs.take((k + 1) as int), jar@) =~= tagged(cs.take(k as int), jar@).push(c@));
    }
    assert(cs.take(cs.len() as int) =~= cs);
    out
}

} // verus!
