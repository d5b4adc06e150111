use vstd::prelude::*;

verus! {

/// The text of the archive entry named `name` inside the archive bytes:
/// `Some` exactly when the bytes form a readable archive that holds such
/// an entry with valid text. A function of the bytes and the name alone.
pub uninterp spec fn entry_text_of(bytes: Seq<u8>, name: Seq<char>) -> Option<Seq<char>>;

/// The fixed path of the embedded manifest inside a packaged mod archive.
pub open spec fn manifest_entry_path() -> Seq<char> {
    "META-INF/mods.toml"@
}

/// Relies on `zip::ZipArchive::new`, `ZipArchive::by_name` and
/// `std::io::Read::read_to_string`: which entry text comes back is a
/// function of the archive bytes and the entry name alone. Every failure
/// (unreadable archive, absent entry, non-textual contents) collapses to
/// `None`.
#[verifier::external_body]
fn zip_entry_text(bytes: &[u8], name: &str) -> (r: Option<String>)
    ensures
        r is Some ==> entry_text_of(bytes@, name@) == Some(r->Some_0@),
        r is None ==> entry_text_of(bytes@, name@) is None,
{
    let cursor = std::io::Cursor::new(bytes);
    let mut archive = match zip::ZipArchive::new(cursor) {
        Ok(a) => a,
        Err(_) => return None,
    };
    let mut entry = match archive.by_name(name) {
        Ok(e) => e,
        Err(_) => return None,
    };
    let mut text = String::new();
    match std::io::Read::read_to_string(&mut entry, &mut text) {
        Ok(_) => Some(text),
        Err(_) => None,
    }
}

/// Extracts the embedded manifest text from one packaged file's bytes:
/// the archive entry at the fixed well-known path, or `None` when the
/// archive cannot be opened, the entry is absent, or its contents are not
/// text.
pub fn manifest_text(bytes: &[u8]) -> (r: Option<String>)
    ensures
        r is Some ==> entry_text_of(bytes@, manifest_entry_path()) == Some(r->Some_0@),
        r is None ==> entry_text_of(bytes@, manifest_entry_path()) is None,
{
    zip_entry_text(bytes, "META-INF/mods.toml")
}

} // verus!
