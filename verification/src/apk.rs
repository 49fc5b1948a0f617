//! Reading the `classes*.dex` entries of an APK (a ZIP archive held in memory).

use vstd::prelude::*;

use crate::error::{DexError, Result};
use crate::multidex::{loaded_from, spec_is_multidex_name, is_multidex_name, MultiDexHelper};
use crate::text::push_str;

verus! {

/// Why an entry of an archive could not be had: no entry of that name could be
/// opened, or its bytes could not be read (or inflated).
#[derive(Clone, Copy, Debug, PartialEq, Eq)]
pub enum EntryFault {
    Missing,
    Unreadable,
}

/// What opening `archive` as a ZIP archive gives: its number of entries, or the text
/// of the error.
pub uninterp spec fn zip_open(archive: Seq<u8>) -> core::result::Result<nat, Seq<char>>;

/// The name of entry `index` of `archive`, when that entry can be opened.
pub uninterp spec fn zip_entry_name(archive: Seq<u8>, index: nat) -> Option<Seq<char>>;

/// The content of the entry named `name` of `archive`, or why it cannot be had, with
/// the text of the error.
pub uninterp spec fn zip_entry_bytes(archive: Seq<u8>, name: Seq<char>) -> core::result::Result<
    Seq<u8>,
    (EntryFault, Seq<char>),
>;

/// `zip::ZipArchive::new` over the bytes, then `ZipArchive::len`: the number of
/// entries, or the error's text. Claimed: the outcome is a function of the bytes alone.
#[verifier::external_body]
fn zip_count(archive: &[u8]) -> (r: core::result::Result<usize, String>)
    ensures
        match r {
            Ok(n) => zip_open(archive@) == Ok::<nat, Seq<char>>(n as nat),
            Err(t) => zip_open(archive@) == Err::<nat, Seq<char>>(t@),
        },
{
    match zip::ZipArchive::new(std::io::Cursor::new(archive)) {
        Ok(a) => Ok(a.len()),
        Err(e) => Err(e.to_string()),
    }
}

/// `zip::ZipArchive::by_index` on the archive over the bytes, then `ZipFile::name`:
/// the entry's name, or `None` when it cannot be opened. Claimed: a function of the
/// bytes and the index alone.
#[verifier::external_body]
fn zip_name_at(archive: &[u8], index: usize) -> (r: Option<String>)
    ensures
        r matches Some(s) ==> zip_entry_name(archive@, index as nat) == Some(s@),
        r is None ==> zip_entry_name(archive@, index as nat) is None,
{
    let mut a = zip::ZipArchive::new(std::io::Cursor::new(archive)).ok()?;
    let entry = a.by_index(index).ok()?;
    Some(entry.name().to_string())
}

/// `zip::ZipArchive::by_name` on the archive over the bytes, then `read_to_end` on the
/// entry: its content, or which of the two failed with the error's text. Claimed: a
/// function of the bytes and the name alone.
#[verifier::external_body]
fn zip_read(archive: &[u8], name: &str) -> (r: core::result::Result<Vec<u8>, (EntryFault, String)>)
    ensures
        match r {
            Ok(v) => zip_entry_bytes(archive@, name@) == Ok::<Seq<u8>, (EntryFault, Seq<char>)>(v@),
            Err((k, t)) => zip_entry_bytes(archive@, name@) == Err::<Seq<u8>, (EntryFault, Seq<char>)>((k, t@)),
        },
{
    let mut a = zip::ZipArchive::new(std::io::Cursor::new(archive)).map_err(|e| (EntryFault::Missing, e.to_string()))?;
    let mut entry = a.by_name(name).map_err(|e| (EntryFault::Missing, e.to_string()))?;
    let mut buf = Vec::new();
    std::io::Read::read_to_end(&mut entry, &mut buf).map_err(|e| (EntryFault::Unreadable, e.to_string()))?;
    Ok(buf)
}

/// The message for an entry that cannot be had.
pub open spec fn fault_message(k: EntryFault, t: Seq<char>) -> Seq<char> {
    match k {
        EntryFault::Missing => "ZIP entry error: "@ + t,
        EntryFault::Unreadable => "ZIP read error: "@ + t,
    }
}

/// The `classes*.dex` entries among the first `n` entries of `archive`, in entry
/// order, with their content; an entry that cannot be opened by index is passed over.
/// The message of the first selected entry that cannot be read, if any.
pub open spec fn apk_images(archive: Seq<u8>, n: nat) -> core::result::Result<Seq<(Seq<char>, Seq<u8>)>, Seq<char>>
    decreases n,
{
    if n == 0 {
        Ok(Seq::empty())
    } else {
        match apk_images(archive, (n - 1) as nat) {
            Err(m) => Err(m),
            Ok(fs) => match zip_entry_name(archive, (n - 1) as nat) {
                None => Ok(fs),
                Some(name) => if !spec_is_multidex_name(name) {
                    Ok(fs)
                } else {
                    match zip_entry_bytes(archive, name) {
                        Ok(b) => Ok(fs.push((name, b))),
                        Err((k, t)) => Err(fault_message(k, t)),
                    }
                },
            },
        }
    }
}

/// The names and contents of `files`, as plain values.
pub open spec fn file_views(files: Seq<(String, Vec<u8>)>) -> Seq<(Seq<char>, Seq<u8>)> {
    Seq::new(files.len(), |i: int| (files[i].0@, files[i].1@))
}

fn message(prefix: &str, t: &str) -> (m: String)
    ensures
        m@ == prefix@ + t@,
{
    let mut m = String::new();
    push_str(&mut m, prefix);
    push_str(&mut m, t);
    m
}

/// Read the `classes*.dex` entries of an APK in memory and load them as one multi-DEX
/// view, as [`MultiDexHelper::from_images`] does without checking the magic first.
/// `Parse` when the archive cannot be opened, or a selected entry cannot be read.
pub fn from_apk_bytes(archive: &[u8], place: &str) -> (r: Result<MultiDexHelper>)
    ensures
        match zip_open(archive@) {
            Err(t) => r matches Err(DexError::Parse(m)) && m@ == "ZIP error: "@ + t,
            Ok(n) => match apk_images(archive@, n) {
                Err(msg) => r matches Err(DexError::Parse(m)) && m@ == msg,
                Ok(images) => exists|files: Seq<(String, Vec<u8>)>|
                    file_views(files) == images && loaded_from(files, place@, false, r),
            },
        },
{
    let n = match zip_count(archive) {
        Ok(n) => n,
        Err(t) => return Err(DexError::Parse(message("ZIP error: ", t.as_str()))),
    };
    let mut files: Vec<(String, Vec<u8>)> = Vec::new();
    let mut i: usize = 0;
    assert(file_views(files@) =~= Seq::<(Seq<char>, Seq<u8>)>::empty());
    while i < n
        invariant
            i <= n,
            zip_open(archive@) == Ok::<nat, Seq<char>>(n as nat),
            apk_images(archive@, i as nat) == Ok::<Seq<(Seq<char>, Seq<u8>)>, Seq<char>>(file_views(files@)),
        decreases n - i,
    {
        let name = match zip_name_at(archive, i) {
            Some(s) => s,
            None => {
                i = i + 1;
                continue;
            },
        };
        if !is_multidex_name(name.as_str()) {
            i = i + 1;
            continue;
        }
        match zip_read(archive, name.as_str()) {
            Ok(bytes) => {
                let ghost before = files@;
                files.push((name, bytes));
                assert(file_views(files@) =~= file_views(before).push((files@.last().0@, files@.last().1@)));
            },
            Err((k, t)) => {
                let m = match k {
                    EntryFault::Missing => message("ZIP entry error: ", t.as_str()),
                    EntryFault::Unreadable => message("ZIP read error: ", t.as_str()),
                };
                proof {
                    assert(apk_images(archive@, (i + 1) as nat) == Err::<Seq<(Seq<char>, Seq<u8>)>, Seq<char>>(m@));
                    lemma_apk_error_stays(archive@, (i + 1) as nat, n as nat);
                }
                return Err(DexError::Parse(m));
            },
        }
        i = i + 1;
    }
    MultiDexHelper::from_images(&files, place, false)
}

/// Once reading stops on an error, reading further entries keeps that error.
proof fn lemma_apk_error_stays(archive: Seq<u8>, i: nat, n: nat)
    requires
        i <= n,
        apk_images(archive, i) is Err,
    ensures
        apk_images(archive, n) == apk_images(archive, i),
    decreases n - i,
{
    if i < n {
        lemma_apk_error_stays(archive, i, (n - 1) as nat);
    }
}

} // verus!
