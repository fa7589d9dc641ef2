//! Pulling the `classes*.dex` entries out of the bytes of a jar or apk.
//!
//! The archive format itself is read by the `zip` crate; which entries are
//! taken, the names they are written under, and when the whole read fails are
//! decided here.

use vstd::prelude::*;
use std::io::Cursor;
use std::io::Read;
use zip::result::ZipError;
use zip::ZipArchive;
use crate::input::{entry_file_name, is_classes_dex, spec_is_classes_dex};
use crate::text::replace_char;

verus! {

#[verifier::external_type_specification]
#[verifier::external_body]
#[verifier::reject_recursive_types(R)]
pub struct ExZipArchive<R>(zip::ZipArchive<R>);

#[verifier::external_type_specification]
#[verifier::external_body]
#[verifier::reject_recursive_types(T)]
pub struct ExCursor<T>(std::io::Cursor<T>);

#[verifier::external_type_specification]
#[verifier::external_body]
pub struct ExZipError(zip::result::ZipError);

/// One entry of an archive as the reader sees it: its name, where the entry
/// can be opened and its name decoded, and its contents, where they can be
/// read and decompressed.
pub type SpecListing = Seq<(Option<Seq<char>>, Option<Seq<u8>>)>;

/// What `ZipArchive::new` finds in `bytes`: `None` where it refuses them,
/// else every entry of the central directory, in order.
pub uninterp spec fn zip_listing(bytes: Seq<u8>) -> Option<Seq<(Option<Seq<char>>, Option<Seq<u8>>)>>;

/// What an open archive holds, entry by entry.
pub uninterp spec fn archive_entries(a: ZipArchive<Cursor<Vec<u8>>>) -> Seq<(Option<Seq<char>>, Option<Seq<u8>>)>;

/// Opens an archive over `bytes` (`ZipArchive::new` on a `Cursor`).
/// Trusted: it fails exactly where `zip_listing` is `None`, and the archive
/// holds that listing otherwise.
#[verifier::external_body]
fn open_archive(bytes: Vec<u8>) -> (r: Result<ZipArchive<Cursor<Vec<u8>>>, ZipError>)
    ensures
        match r {
            Ok(a) => zip_listing(bytes@) == Some(archive_entries(a)),
            Err(_) => zip_listing(bytes@) is None,
        },
{
    ZipArchive::new(Cursor::new(bytes))
}

/// The number of entries (`ZipArchive::len`). Trusted: the length of the
/// listing.
#[verifier::external_body]
fn archive_len(a: &ZipArchive<Cursor<Vec<u8>>>) -> (n: usize)
    ensures
        n == archive_entries(*a).len(),
{
    a.len()
}

/// The name of entry `i` (`ZipArchive::by_index`, then `ZipFile::name`).
/// Trusted: it is the listed name, and it fails exactly where none is listed;
/// the archive's entries stay as they were.
#[verifier::external_body]
fn entry_name(a: &mut ZipArchive<Cursor<Vec<u8>>>, i: usize) -> (r: Result<String, ZipError>)
    requires
        i < archive_entries(*old(a)).len(),
    ensures
        archive_entries(*final(a)) == archive_entries(*old(a)),
        match r {
            Ok(s) => archive_entries(*old(a))[i as int].0 == Some(s@),
            Err(_) => archive_entries(*old(a))[i as int].0 is None,
        },
{
    let f = a.by_index(i)?;
    let name = f.name()?;
    Ok(name.into_owned())
}

/// The contents of entry `i` (`ZipArchive::by_index`, then
/// `Read::read_to_end` on the entry). Trusted: they are the listed contents,
/// and the read fails exactly where none are listed; the archive's entries
/// stay as they were.
#[verifier::external_body]
fn entry_data(a: &mut ZipArchive<Cursor<Vec<u8>>>, i: usize) -> (r: Result<Vec<u8>, ZipError>)
    requires
        i < archive_entries(*old(a)).len(),
        archive_entries(*old(a))[i as int].0 is Some,
    ensures
        archive_entries(*final(a)) == archive_entries(*old(a)),
        match r {
            Ok(d) => archive_entries(*old(a))[i as int].1 == Some(d@),
            Err(_) => archive_entries(*old(a))[i as int].1 is None,
        },
{
    let mut f = a.by_index(i)?;
    let mut buf: Vec<u8> = Vec::new();
    f.read_to_end(&mut buf)?;
    Ok(buf)
}

/// A `classes*.dex` entry taken out of an archive.
#[derive(Debug, Clone)]
pub struct DexEntry {
    /// the entry's name inside the archive.
    pub name: String,
    /// the file name it is written under: the name with `/` made `_`.
    pub file_name: String,
    pub bytes: Vec<u8>,
}

/// What a [`DexEntry`] denotes.
pub struct SpecDexEntry {
    pub name: Seq<char>,
    pub file_name: Seq<char>,
    pub bytes: Seq<u8>,
}

impl View for DexEntry {
    type V = SpecDexEntry;

    open spec fn view(&self) -> SpecDexEntry {
        SpecDexEntry { name: self.name@, file_name: self.file_name@, bytes: self.bytes@ }
    }
}

/// Why an archive could not be read.
#[derive(Debug, Clone, Copy, PartialEq, Eq)]
pub enum ArchiveError {
    /// the bytes are not a zip archive the reader accepts.
    Open,
    /// the entry at this position could not be opened, named or read.
    Entry(usize),
}

pub open spec fn entries_view(s: Seq<DexEntry>) -> Seq<SpecDexEntry> {
    s.map_values(|e: DexEntry| e@)
}

/// The entry taken for a `classes*.dex` member with these name and contents.
pub open spec fn dex_entry(name: Seq<char>, bytes: Seq<u8>) -> SpecDexEntry {
    SpecDexEntry { name, file_name: replace_char(name, '/', '_'), bytes }
}

/// Walking the first `k` entries: the `classes*.dex` entries taken so far, or
/// the position of the first entry that could not be named, or that is a
/// `classes*.dex` whose contents could not be read.
pub open spec fn select_upto(listing: SpecListing, k: int) -> Result<Seq<SpecDexEntry>, int>
    decreases k,
{
    if k <= 0 {
        Ok(Seq::empty())
    } else {
        match select_upto(listing, k - 1) {
            Err(i) => Err(i),
            Ok(taken) => match listing[k - 1].0 {
                None => Err(k - 1),
                Some(name) => if !spec_is_classes_dex(name) {
                    Ok(taken)
                } else {
                    match listing[k - 1].1 {
                        None => Err(k - 1),
                        Some(bytes) => Ok(taken.push(dex_entry(name, bytes))),
                    }
                },
            },
        }
    }
}

/// The outcome over a whole listing.
pub open spec fn spec_select(listing: SpecListing) -> Result<Seq<SpecDexEntry>, int> {
    select_upto(listing, listing.len() as int)
}

/// The outcome of a selection, as its view.
pub open spec fn outcome_view(r: Result<Vec<DexEntry>, ArchiveError>) -> Result<Seq<SpecDexEntry>, int> {
    match r {
        Ok(v) => Ok(entries_view(v@)),
        Err(ArchiveError::Entry(i)) => Err(i as int),
        Err(ArchiveError::Open) => Err(-1),
    }
}

/// The listing with the contents kept only of the `classes*.dex` entries:
/// the others are never read.
pub open spec fn lazy_listing(listing: SpecListing) -> SpecListing {
    listing.map_values(
        |e: (Option<Seq<char>>, Option<Seq<u8>>)|
            match e.0 {
                Some(name) => if spec_is_classes_dex(name) {
                    e
                } else {
                    (e.0, None)
                },
                None => (None, None),
            },
    )
}

pub open spec fn listing_view(v: Seq<(Option<String>, Option<Vec<u8>>)>) -> SpecListing {
    v.map_values(
        |e: (Option<String>, Option<Vec<u8>>)|
            (
                match e.0 {
                    Some(s) => Some(s@),
                    None => None,
                },
                match e.1 {
                    Some(d) => Some(d@),
                    None => None,
                },
            ),
    )
}

/// Selection does not look at the contents of entries it does not take.
pub proof fn lemma_select_lazy(listing: SpecListing, k: int)
    requires
        0 <= k <= listing.len(),
    ensures
        select_upto(lazy_listing(listing), k) == select_upto(listing, k),
    decreases k,
{
    if k > 0 {
        lemma_select_lazy(listing, k - 1);
    }
}

/// Once the walk has failed, it fails at the same entry to the end.
pub proof fn lemma_select_err_sticks(listing: SpecListing, k: int, m: int)
    requires
        0 <= k <= m,
        select_upto(listing, k) is Err,
    ensures
        select_upto(listing, m) == select_upto(listing, k),
    decreases m - k,
{
    if m > k {
        lemma_select_err_sticks(listing, k, m - 1);
    }
}

/// Takes the `classes*.dex` entries of a listing, in order, each with the
/// file name it is written under; fails at the first entry that has no name,
/// or that is a `classes*.dex` without contents.
pub fn select_dex_entries(listing: &Vec<(Option<String>, Option<Vec<u8>>)>) -> (r: Result<
    Vec<DexEntry>,
    ArchiveError,
>)
    ensures
        outcome_view(r) == spec_select(listing_view(listing@)),
{
    let ghost l = listing_view(listing@);
    let mut out: Vec<DexEntry> = Vec::new();
    assert(entries_view(out@) =~= Seq::<SpecDexEntry>::empty());
    let mut i: usize = 0;
    while i < listing.len()
        invariant
            i <= listing@.len(),
            l == listing_view(listing@),
            select_upto(l, i as int) == Ok::<Seq<SpecDexEntry>, int>(entries_view(out@)),
        decreases listing.len() - i,
    {
        let ghost before = entries_view(out@);
        match &listing[i].0 {
            None => {
                assert(select_upto(l, i + 1) == Err::<Seq<SpecDexEntry>, int>(i as int));
                proof {
                    lemma_select_err_sticks(l, i + 1, l.len() as int);
                }
                return Err(ArchiveError::Entry(i));
            },
            Some(name) => {
                if is_classes_dex(name.as_str()) {
                    match &listing[i].1 {
                        None => {
                            assert(select_upto(l, i + 1) == Err::<Seq<SpecDexEntry>, int>(
                                i as int,
                            ));
                            proof {
                                lemma_select_err_sticks(l, i + 1, l.len() as int);
                            }
                            return Err(ArchiveError::Entry(i));
                        },
                        Some(bytes) => {
                            let e = DexEntry {
                                name: name.clone(),
                                file_name: entry_file_name(name.as_str()),
                                bytes: bytes.clone(),
                            };
                            out.push(e);
                            assert(entries_view(out@) =~= before.push(
                                dex_entry(name@, bytes@),
                            ));
                        },
                    }
                }
            },
        }
        i = i + 1;
    }
    assert(l.len() == listing@.len());
    Ok(out)
}

/// Reads the `classes*.dex` entries out of the bytes of a jar or apk: fails
/// with `Open` where the reader refuses the bytes, and otherwise as
/// [`select_dex_entries`] does on what the archive lists.
pub fn read_archive(bytes: Vec<u8>) -> (r: Result<Vec<DexEntry>, ArchiveError>)
    ensures
        match zip_listing(bytes@) {
            None => r == Err::<Vec<DexEntry>, ArchiveError>(ArchiveError::Open),
            Some(l) => outcome_view(r) == spec_select(l),
        },
{
    let mut a = match open_archive(bytes) {
        Ok(a) => a,
        Err(_) => return Err(ArchiveError::Open),
    };
    let ghost l = archive_entries(a);
    let n = archive_len(&a);
    let mut listing: Vec<(Option<String>, Option<Vec<u8>>)> = Vec::new();
    let mut i: usize = 0;
    while i < n
        invariant
            i <= n,
            n == l.len(),
            archive_entries(a) == l,
            listing@.len() == i,
            listing_view(listing@) == lazy_listing(l).take(i as int),
        decreases n - i,
    {
        let name = entry_name(&mut a, i);
        let item = match name {
            Err(_) => (None, None),
            Ok(s) => {
                if is_classes_dex(s.as_str()) {
                    match entry_data(&mut a, i) {
                        Ok(d) => (Some(s), Some(d)),
                        Err(_) => (Some(s), None),
                    }
                } else {
                    (Some(s), None)
                }
            },
        };
        let ghost prev = listing_view(listing@);
        listing.push(item);
        assert(listing_view(listing@) =~= prev.push(lazy_listing(l)[i as int]));
        assert(lazy_listing(l).take(i + 1) =~= lazy_listing(l).take(i as int).push(
            lazy_listing(l)[i as int],
        ));
        i = i + 1;
    }
    assert(lazy_listing(l).take(n as int) =~= lazy_listing(l));
    proof {
        lemma_select_lazy(l, l.len() as int);
    }
    select_dex_entries(&listing)
}

} // verus!
