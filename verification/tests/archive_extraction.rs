use std::io::{Cursor, Write};

use modgraph::archive::manifest_text;
use zip::write::SimpleFileOptions;
use zip::ZipWriter;

fn archive_with_entry(name: &str, contents: &str) -> Vec<u8> {
    let mut w = ZipWriter::new(Cursor::new(Vec::new()));
    w.start_file(name, SimpleFileOptions::default()).unwrap();
    w.write_all(contents.as_bytes()).unwrap();
    w.finish().unwrap().into_inner()
}

#[test]
fn manifest_entry_is_extracted() {
    let bytes = archive_with_entry("META-INF/mods.toml", "[[mods]]\n    modId=\"modA\"\n");
    let text = manifest_text(&bytes);
    assert_eq!(text.as_deref(), Some("[[mods]]\n    modId=\"modA\"\n"));
}

#[test]
fn archive_without_manifest_entry_fails() {
    let bytes = archive_with_entry("other.txt", "not a manifest");
    assert_eq!(manifest_text(&bytes), None);
}

#[test]
fn corrupt_archive_fails() {
    let bytes = vec![0u8, 1, 2, 3, 4, 5, 6, 7];
    assert_eq!(manifest_text(&bytes), None);
}
