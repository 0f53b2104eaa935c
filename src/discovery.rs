//! Which files of a picture directory count as photos.
use vstd::prelude::*;

verus! {

/// One entry of a directory listing, as the store needs it.
#[derive(Clone, Debug)]
pub struct FileEntry {
    /// The entry's full path.
    pub path: String,
    /// The text after the last dot of the file name, where it has one.
    pub extension: Option<String>,
    /// Whether the entry is a regular file.
    pub is_file: bool,
}

/// What `str::to_lowercase` makes of `s`.
pub uninterp spec fn lower_of(s: Seq<char>) -> Seq<char>;

/// Whether every character of `s` is ASCII.
pub open spec fn is_ascii_text(s: Seq<char>) -> bool {
    forall|i: int| 0 <= i < s.len() ==> (#[trigger] s[i] as u32) < 128
}

/// The lower-case form of an ASCII character.
pub open spec fn ascii_lower_char(c: char) -> char {
    if 'A' <= c && c <= 'Z' {
        ((c as u32) + 32) as char
    } else {
        c
    }
}

/// The lower-case form of an ASCII text, character by character.
pub open spec fn ascii_lower(s: Seq<char>) -> Seq<char> {
    s.map_values(|c: char| ascii_lower_char(c))
}

/// The lower-case form of `s` as `str::to_lowercase` gives it, spelled out
/// where `s` is ASCII.
pub open spec fn case_folded(s: Seq<char>) -> Seq<char> {
    if is_ascii_text(s) {
        ascii_lower(s)
    } else {
        lower_of(s)
    }
}

/// Relies on `str::to_lowercase`: the lower-case form of `s`, which depends
/// on its characters alone; on ASCII text it maps `A`..`Z` to `a`..`z` and
/// keeps every other character.
#[verifier::external_body]
fn lowercase(s: &str) -> (r: String)
    ensures
        r@ == lower_of(s@),
        is_ascii_text(s@) ==> r@ == ascii_lower(s@),
{
    s.to_lowercase()
}

/// Whether a lower-case extension names a photo format.
pub open spec fn photo_extension(lowered: Seq<char>) -> bool {
    lowered == "jpg"@ || lowered == "jpeg"@ || lowered == "png"@ || lowered == "gif"@
        || lowered == "bmp"@ || lowered == "webp"@
}

/// Whether a directory entry is a photo: a regular file whose extension,
/// in lower case, names a photo format.
pub open spec fn photo_entry(e: FileEntry) -> bool {
    e.is_file && match e.extension {
        Some(ext) => photo_extension(case_folded(ext@)),
        None => false,
    }
}

/// The paths of the photos among `es`, in order.
pub open spec fn photo_paths(es: Seq<FileEntry>) -> Seq<Seq<char>>
    decreases es.len(),
{
    if es.len() == 0 {
        Seq::empty()
    } else {
        let rest = photo_paths(es.drop_last());
        if photo_entry(es.last()) {
            rest.push(es.last().path@)
        } else {
            rest
        }
    }
}

/// The photos among directory entries are the entries that are regular
/// files with a photo extension, whatever its case; every other entry is
/// left out.
pub proof fn lemma_photo_paths(es: Seq<FileEntry>)
    ensures
        forall|i: int|
            0 <= i < es.len() && photo_entry(#[trigger] es[i]) ==> photo_paths(es).contains(
                es[i].path@,
            ),
        forall|p: Seq<char>|
            #[trigger] photo_paths(es).contains(p) ==> exists|i: int|
                0 <= i < es.len() && photo_entry(es[i]) && es[i].path@ == p,
    decreases es.len(),
{
    if es.len() > 0 {
        let init = es.drop_last();
        lemma_photo_paths(init);
        let rest = photo_paths(init);
        assert forall|i: int|
            0 <= i < es.len() && photo_entry(#[trigger] es[i]) implies photo_paths(es).contains(
            es[i].path@,
        ) by {
            if i < es.len() - 1 {
                assert(init[i] == es[i]);
                let k = choose|k: int| 0 <= k < rest.len() && rest[k] == es[i].path@;
                if photo_entry(es.last()) {
                    assert(rest.push(es.last().path@)[k] == es[i].path@);
                }
            } else {
                assert(rest.push(es.last().path@)[rest.len() as int] == es[i].path@);
            }
        }
        assert forall|p: Seq<char>| #[trigger] photo_paths(es).contains(p) implies exists|i: int|
            0 <= i < es.len() && photo_entry(es[i]) && es[i].path@ == p by {
            let k = choose|k: int| 0 <= k < photo_paths(es).len() && photo_paths(es)[k] == p;
            if k < rest.len() {
                assert(rest[k] == p);
                assert(rest.contains(p));
                let i = choose|i: int| 0 <= i < init.len() && photo_entry(init[i]) && init[i].path@ == p;
                assert(es[i] == init[i]);
            } else {
                assert(photo_entry(es[es.len() - 1]));
            }
        }
    }
}

/// Whether `lowered`, an extension already in lower case, names a photo
/// format.
pub fn is_photo_extension_lowered(lowered: &str) -> (r: bool)
    ensures
        r == photo_extension(lowered@),
{
    let e = lowered.to_owned();
    e == "jpg".to_owned() || e == "jpeg".to_owned() || e == "png".to_owned() || e
        == "gif".to_owned() || e == "bmp".to_owned() || e == "webp".to_owned()
}

/// Whether `ext` names a photo format, whatever its case.
pub fn is_photo_extension(ext: &str) -> (r: bool)
    ensures
        r == photo_extension(lower_of(ext@)),
        r == photo_extension(case_folded(ext@)),
{
    let lowered = lowercase(ext);
    is_photo_extension_lowered(lowered.as_str())
}

/// Whether the directory entry `e` is a photo.
pub fn is_photo_entry(e: &FileEntry) -> (r: bool)
    ensures
        r == photo_entry(*e),
{
    if !e.is_file {
        return false;
    }
    match &e.extension {
        Some(ext) => is_photo_extension(ext.as_str()),
        None => false,
    }
}

/// The names of the folders under the home directory that are searched for
/// photos, besides the system's picture directory.
pub fn home_photo_dirs() -> (r: Vec<String>)
    ensures
        r@.len() == 4,
        r@[0]@ == "Pictures"@,
        r@[1]@ == "Resimler"@,
        r@[2]@ == "Downloads"@,
        r@[3]@ == "\u{130}ndirilenler"@,
{
    let mut r: Vec<String> = Vec::new();
    r.push("Pictures".to_owned());
    r.push("Resimler".to_owned());
    r.push("Downloads".to_owned());
    r.push("\u{130}ndirilenler".to_owned());
    r
}

} // verus!
