use vstd::prelude::*;

use crate::error::MarkovError;
use vstd::utf8::valid_utf8;
use std::io::{Cursor, Read};
use tar::Archive;
use zip::result::ZipError;
use zip::ZipArchive;

verus! {

#[verifier::external_type_specification]
#[verifier::external_body]
pub struct ExZipError(ZipError);

#[verifier::external_type_specification]
#[verifier::external_body]
pub struct ExIoError(std::io::Error);

/// How many files the zip archive `data` lists, if it can be read.
pub uninterp spec fn zip_file_count(data: Seq<u8>) -> Option<nat>;

/// The bytes of the first file of the zip archive `data`, if it can be read.
pub uninterp spec fn zip_first_file(data: Seq<u8>) -> Option<Seq<u8>>;

/// The contents of the entries of the tar archive `data`, in order, if it can be read.
pub uninterp spec fn tar_contents(data: Seq<u8>) -> Option<Seq<Seq<u8>>>;

/// Relies on zip's `ZipArchive::new` and `ZipArchive::len`: the number of files listed in the
/// archive's central directory, which depends on the bytes alone.
#[verifier::external_body]
fn zip_len(data: &[u8]) -> (r: Result<usize, ZipError>)
    ensures
        r is Ok <==> zip_file_count(data@) is Some,
        r matches Ok(n) ==> zip_file_count(data@) == Some(n as nat),
{
    ZipArchive::new(Cursor::new(data)).map(|z| z.len())
}

/// Relies on zip's `ZipArchive::by_index` and the `Read` impl of the file it returns: the
/// decompressed bytes of the first file, which depend on the archive's bytes alone.
#[verifier::external_body]
fn zip_first(data: &[u8]) -> (r: Result<Vec<u8>, ZipError>)
    ensures
        r is Ok <==> zip_first_file(data@) is Some,
        r matches Ok(b) ==> zip_first_file(data@) == Some(b@),
{
    let mut zip = ZipArchive::new(Cursor::new(data))?;
    let mut buf = Vec::new();
    zip.by_index(0)?.read_to_end(&mut buf)?;
    Ok(buf)
}

/// Relies on tar's `Archive::entries` and the `Read` impl of each entry: the contents of the
/// entries in archive order, which depend on the archive's bytes alone.
#[verifier::external_body]
fn tar_entries(data: &[u8]) -> (r: Result<Vec<Vec<u8>>, std::io::Error>)
    ensures
        r is Ok <==> tar_contents(data@) is Some,
        r matches Ok(es) ==> tar_contents(data@) == Some(es@.map_values(|e: Vec<u8>| e@)),
{
    let mut archive = Archive::new(data);
    let mut out = Vec::new();
    for entry in archive.entries()? {
        let mut buf = Vec::new();
        entry?.read_to_end(&mut buf)?;
        out.push(buf);
    }
    Ok(out)
}

/// Relies on `std::str::from_utf8`: it accepts exactly the valid UTF-8 byte sequences.
#[verifier::external_body]
fn is_utf8(b: &[u8]) -> (r: bool)
    ensures
        r == valid_utf8(b@),
{
    std::str::from_utf8(b).is_ok()
}

/// An entry that can be joined: UTF-8 text whose last character is a single byte.
pub open spec fn entry_ok(e: Seq<u8>) -> bool {
    e.len() > 0 && valid_utf8(e) && e.last() < 128
}

/// The entries joined into one JSON array: each entry without its last byte (the line break
/// that ends it), then a closing bracket.
pub open spec fn joined(es: Seq<Seq<u8>>) -> Seq<u8>
    decreases es.len(),
{
    if es.len() == 0 {
        seq![]
    } else {
        joined(es.drop_last()) + es.last().drop_last()
    }
}

/// What an export bundle holds: a zip archive of exactly one file, a tar archive whose
/// entries are UTF-8 text each ending in a one-byte character (its line break); the entries
/// without that last byte, followed by `]`, form the JSON text of the posts.
pub open spec fn bundle_json(data: Seq<u8>) -> Option<Seq<u8>> {
    if zip_file_count(data) != Some(1nat) {
        None
    } else {
        match zip_first_file(data) {
            Some(t) => match tar_contents(t) {
                Some(es) => if forall|i: int| 0 <= i < es.len() ==> entry_ok(#[trigger] es[i]) {
                    Some(joined(es).push(93u8))
                } else {
                    None
                },
                None => None,
            },
            None => None,
        }
    }
}

/// The JSON text of the posts in an export bundle; fails with `Archive` where the bundle is
/// not one zip file holding one tar archive of entries that are UTF-8 text each ending in a
/// one-byte character.
pub fn extract(tar_zip: &[u8]) -> (r: Result<Vec<u8>, MarkovError>)
    ensures
        match bundle_json(tar_zip@) {
            Some(j) => r matches Ok(b) && b@ == j,
            None => r == Err::<Vec<u8>, MarkovError>(MarkovError::Archive),
        },
{
    let n = match zip_len(tar_zip) {
        Ok(n) => n,
        Err(_) => {
            return Err(MarkovError::Archive);
        },
    };
    if n != 1 {
        return Err(MarkovError::Archive);
    }
    assert(zip_file_count(tar_zip@) == Some(1nat));
    let tar = match zip_first(tar_zip) {
        Ok(t) => t,
        Err(_) => {
            return Err(MarkovError::Archive);
        },
    };
    let entries = match tar_entries(tar.as_slice()) {
        Ok(es) => es,
        Err(_) => {
            return Err(MarkovError::Archive);
        },
    };
    let ghost ev = entries@.map_values(|e: Vec<u8>| e@);
    assert(zip_first_file(tar_zip@) == Some(tar@));
    assert(tar_contents(tar@) == Some(ev));
    let mut json: Vec<u8> = Vec::new();
    let mut i: usize = 0;
    assert(ev.take(0) =~= Seq::<Seq<u8>>::empty());
    while i < entries.len()
        invariant
            i <= entries.len(),
            ev == entries@.map_values(|e: Vec<u8>| e@),
            zip_file_count(tar_zip@) == Some(1nat),
            zip_first_file(tar_zip@) == Some(tar@),
            tar_contents(tar@) == Some(ev),
            json@ == joined(ev.take(i as int)),
            forall|k: int| 0 <= k < i ==> entry_ok(#[trigger] ev[k]),
        decreases entries.len() - i,
    {
        let e = &entries[i];
        if e.len() == 0 || !is_utf8(e.as_slice()) || e[e.len() - 1] >= 128 {
            assert(!entry_ok(ev[i as int]));
            assert(!(forall|j: int| 0 <= j < ev.len() ==> entry_ok(#[trigger] ev[j])));
            assert(bundle_json(tar_zip@) is None);
            return Err(MarkovError::Archive);
        }
        let mut k: usize = 0;
        let ghost before = json@;
        while k + 1 < e.len()
            invariant
                k < e.len(),
                json@ == before + e@.take(k as int),
            decreases e.len() - k,
        {
            json.push(e[k]);
            k += 1;
            assert(json@ =~= before + e@.take(k as int));
        }
        proof {
            assert(e@.take(k as int) =~= ev[i as int].drop_last());
            assert(ev.take(i + 1).drop_last() =~= ev.take(i as int));
        }
        i += 1;
    }
    assert(ev.take(i as int) =~= ev);
    json.push(93u8);
    Ok(json)
}

} // verus!
