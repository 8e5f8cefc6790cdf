use std::io::{Cursor, Write};

use markov_notestock::archive::extract;
use markov_notestock::error::MarkovError;
use zip::write::SimpleFileOptions;
use zip::{CompressionMethod, ZipWriter};

fn tar_of(entries: &[(&str, &[u8])]) -> Vec<u8> {
    let mut b = tar::Builder::new(Vec::new());
    for (name, data) in entries {
        let mut h = tar::Header::new_gnu();
        h.set_size(data.len() as u64);
        h.set_mode(0o644);
        h.set_cksum();
        b.append_data(&mut h, name, *data).unwrap();
    }
    b.into_inner().unwrap()
}

fn zip_of(files: &[(&str, &[u8])]) -> Vec<u8> {
    let mut z = ZipWriter::new(Cursor::new(Vec::new()));
    let opts = SimpleFileOptions::default().compression_method(CompressionMethod::Stored);
    for (name, data) in files {
        z.start_file(*name, opts).unwrap();
        z.write_all(data).unwrap();
    }
    z.finish().unwrap().into_inner()
}

#[test]
fn extract_joins_entries() {
    let tar = tar_of(&[("a.json", b"[{\"content\":\"x\"},\n"), ("b.json", b"{\"content\":\"y\"}\n")]);
    let bundle = zip_of(&[("notes.tar", &tar)]);
    let json = extract(&bundle).unwrap();
    assert_eq!(json, b"[{\"content\":\"x\"},{\"content\":\"y\"}]".to_vec());
}

#[test]
fn extract_rejects_non_zip() {
    assert_eq!(extract(b"not a zip"), Err(MarkovError::Archive));
}

#[test]
fn extract_rejects_two_files() {
    let tar = tar_of(&[("a.json", b"[]\n")]);
    let bundle = zip_of(&[("one.tar", &tar), ("two.tar", &tar)]);
    assert_eq!(extract(&bundle), Err(MarkovError::Archive));
}

#[test]
fn extract_rejects_empty_entry() {
    let tar = tar_of(&[("a.json", b"[\n"), ("b.json", b"")]);
    let bundle = zip_of(&[("notes.tar", &tar)]);
    assert_eq!(extract(&bundle), Err(MarkovError::Archive));
}

#[test]
fn extract_rejects_non_utf8_entry() {
    let tar = tar_of(&[("a.json", b"[\xff\xfe\n")]);
    let bundle = zip_of(&[("notes.tar", &tar)]);
    assert_eq!(extract(&bundle), Err(MarkovError::Archive));
}

#[test]
fn extract_rejects_entry_ending_in_wide_character() {
    let tar = tar_of(&[("a.json", "[\"é".as_bytes())]);
    let bundle = zip_of(&[("notes.tar", &tar)]);
    assert_eq!(extract(&bundle), Err(MarkovError::Archive));
}
