//! The parts of the `ini` crate and of `std::path` that the configuration
//! parser relies on, with what they are taken to do.

use vstd::prelude::*;

verus! {

#[verifier::external_type_specification]
#[verifier::external_body]
pub struct ExIni(ini::Ini);

#[verifier::external_type_specification]
#[verifier::external_body]
pub struct ExParseError(ini::ParseError);

/// The sections of a parsed document, in order: each one's name (`None` for
/// the general section) and its key/value entries, in order.
pub uninterp spec fn ini_sections(doc: ini::Ini) -> Seq<(Option<Seq<char>>, Seq<(Seq<char>, Seq<char>)>)>;

/// The sections that `Ini::load_from_str_noescape` reads from a text, or
/// `None` where it rejects the text.
pub uninterp spec fn ini_parse(text: Seq<char>) -> Option<Seq<(Option<Seq<char>>, Seq<(Seq<char>, Seq<char>)>)>>;

/// The extension that `Path::extension` finds in a path.
pub uninterp spec fn extension_of(path: Seq<char>) -> Option<Seq<char>>;

/// Relies on `ini::Ini::load_from_str_noescape`: it parses the text, a
/// backslash being an ordinary character, or fails with a `ParseError`.
pub assume_specification[ ini::Ini::load_from_str_noescape ](buf: &str) -> (r: Result<ini::Ini, ini::ParseError>)
    ensures
        r is Ok <==> ini_parse(buf@) is Some,
        r matches Ok(doc) ==> ini_sections(doc) == ini_parse(buf@)->Some_0,
;

pub open spec fn entries_view(v: Seq<(String, String)>) -> Seq<(Seq<char>, Seq<char>)> {
    v.map_values(|p: (String, String)| (p.0@, p.1@))
}

/// The entries of the first section named `name`.
pub open spec fn first_section(
    secs: Seq<(Option<Seq<char>>, Seq<(Seq<char>, Seq<char>)>)>,
    name: Seq<char>,
) -> Option<Seq<(Seq<char>, Seq<char>)>>
    decreases secs.len(),
{
    if secs.len() == 0 {
        None
    } else if secs[0].0 == Some(name) {
        Some(secs[0].1)
    } else {
        first_section(secs.drop_first(), name)
    }
}

/// Relies on `ini::Ini::section`, which gives the first section of that
/// name, and on `Properties::iter`, which walks its entries in order.
#[verifier::external_body]
pub(crate) fn section_entries(doc: &ini::Ini, name: &str) -> (r: Option<Vec<(String, String)>>)
    ensures
        match first_section(ini_sections(*doc), name@) {
            Some(e) => r matches Some(v) && entries_view(v@) == e,
            None => r is None,
        },
{
    doc.section(Some(name)).map(|p| p.iter().map(|(k, v)| (k.to_string(), v.to_string())).collect())
}

/// Relies on `std::path::Path::extension`: the part of the file name after
/// its last dot, which depends on the path's text alone.
#[verifier::external_body]
pub(crate) fn path_extension(path: &str) -> (r: Option<String>)
    ensures
        match extension_of(path@) {
            Some(e) => r matches Some(s) && s@ == e,
            None => r is None,
        },
{
    std::path::Path::new(path).extension().and_then(|e| e.to_str()).map(|e| e.to_string())
}

} // verus!
