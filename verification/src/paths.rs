use vstd::prelude::*;
use crate::lint::{ascii_lower, ascii_lowercase};
use crate::model::option_text;

verus! {

/// The extension of the path's file name, as `std::path::Path::extension`
/// gives it for this build target's path syntax.
pub uninterp spec fn path_extension(path: Seq<char>) -> Option<Seq<char>>;

/// The file name of the path without its extension, as
/// `std::path::Path::file_stem` gives it for this build target's path syntax.
pub uninterp spec fn path_file_stem(path: Seq<char>) -> Option<Seq<char>>;

/// The path with its file name replaced, as `std::path::Path::with_file_name`
/// gives it for this build target's path syntax.
pub uninterp spec fn path_with_file_name(path: Seq<char>, name: Seq<char>) -> Seq<char>;

/// Calls `std::path::Path::extension` on a path given as text; the result is
/// exactly the named `path_extension` of the text. A path built from UTF-8
/// text has UTF-8 components, so the conversion back to text loses nothing.
#[verifier::external_body]
fn extension_of(path: &str) -> (r: Option<String>)
    ensures
        option_text(r) == path_extension(path@),
{
    match std::path::Path::new(path).extension() {
        Some(e) => match e.to_str() {
            Some(t) => Some(t.to_string()),
            None => None,
        },
        None => None,
    }
}

/// Calls `std::path::Path::file_stem` on a path given as text; the result is
/// exactly the named `path_file_stem` of the text.
#[verifier::external_body]
fn file_stem_of(path: &str) -> (r: Option<String>)
    ensures
        option_text(r) == path_file_stem(path@),
{
    match std::path::Path::new(path).file_stem() {
        Some(e) => match e.to_str() {
            Some(t) => Some(t.to_string()),
            None => None,
        },
        None => None,
    }
}

/// Calls `std::path::Path::with_file_name` on a path given as text; the
/// result is exactly the named `path_with_file_name` of the two texts.
#[verifier::external_body]
fn with_file_name(path: &str, name: &str) -> (r: String)
    ensures
        r@ == path_with_file_name(path@, name@),
{
    std::path::Path::new(path).with_file_name(name).to_string_lossy().into_owned()
}

/// The text, or `default` where there is none.
pub open spec fn text_or(o: Option<Seq<char>>, default: Seq<char>) -> Seq<char> {
    match o {
        Some(t) => t,
        None => default,
    }
}

/// The mesh format named by a model path: its extension in ASCII lower case,
/// `stl` when it has none.
pub fn infer_format(path: &str) -> (r: String)
    ensures
        r@ == text_or(path_extension(path@), "stl"@).map_values(|c: char| ascii_lower(c)),
{
    match extension_of(path) {
        Some(e) => ascii_lowercase(e.as_str()),
        None => ascii_lowercase("stl"),
    }
}

/// Where a repaired model is written by default: beside the model, named
/// `<stem>.fixed.<extension>` (`model` and `stl` standing in for a missing
/// stem or extension).
pub fn fixed_path(path: &str) -> (r: String)
    ensures
        r@ == path_with_file_name(
            path@,
            text_or(path_file_stem(path@), "model"@) + ".fixed."@ + text_or(path_extension(path@), "stl"@),
        ),
{
    let stem = match file_stem_of(path) {
        Some(s) => s,
        None => String::from_str("model"),
    };
    let extension = match extension_of(path) {
        Some(e) => e,
        None => String::from_str("stl"),
    };
    let mut name = stem;
    name.append(".fixed.");
    name.append(extension.as_str());
    with_file_name(path, name.as_str())
}

} // verus!
