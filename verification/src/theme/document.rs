//! The index document of a theme, as the `ini` crate holds it.
//!
//! Nothing in this file is proved: it states what the rest of the crate
//! relies on when it parses, fills and reads such a document.
use vstd::prelude::*;
use ini::Ini;
use ini::ParseError;

verus! {

/// A parsed or generated index document. Its inside is not visible here;
/// [`ini_entries`] stands for what it holds.
#[verifier::external_type_specification]
#[verifier::external_body]
pub struct ExIni(Ini);

/// Why a text is no index document: a line, a column and a message.
#[verifier::external_type_specification]
#[verifier::external_body]
pub struct ExParseError(ParseError);

/// What a document holds: for a named section and a key, the value that
/// `Ini::get_from` finds there.
pub uninterp spec fn ini_entries(doc: Ini) -> Map<(Seq<char>, Seq<char>), Seq<char>>;

/// What `Ini::load_from_str` makes of a text: the entries of the document,
/// or nothing where the text does not parse.
pub uninterp spec fn ini_parse(text: Seq<char>) -> Option<Map<(Seq<char>, Seq<char>), Seq<char>>>;

/// `Ini::load_from_str` parses with the crate's default options. The result
/// depends on the text alone; `ini_parse` names it.
pub assume_specification[ Ini::load_from_str ](buf: &str) -> (r: Result<Ini, ParseError>)
    ensures
        match r {
            Ok(doc) => ini_parse(buf@) == Some(ini_entries(doc)),
            Err(_) => ini_parse(buf@) is None,
        },
;

/// The entries of a document that holds nothing.
pub open spec fn no_entries() -> Map<(Seq<char>, Seq<char>), Seq<char>> {
    Map::empty()
}

/// `Ini::new` makes a document with an empty unnamed section and no named
/// section, so that no section and key has a value.
pub assume_specification[ Ini::new ]() -> (doc: Ini)
    ensures
        ini_entries(doc) == no_entries(),
;

/// `Ini::set_to` on a named section: creates the section where it is missing
/// and replaces whatever the key held there by the one value. Other sections
/// and keys keep what they had.
#[verifier::external_body]
pub(crate) fn set_entry(doc: &mut Ini, section: &str, key: &str, value: &str)
    ensures
        ini_entries(*final(doc)) == ini_entries(*old(doc)).insert((section@, key@), value@),
{
    doc.set_to(Some(section), key.to_owned(), value.to_owned());
}

/// `Ini::get_from` on a named section: the first value of the key in the
/// first section of that name, if there is one.
#[verifier::external_body]
pub(crate) fn get_entry(doc: &Ini, section: &str, key: &str) -> (value: Option<String>)
    ensures
        match value {
            Some(v) => ini_entries(*doc).contains_key((section@, key@))
                && ini_entries(*doc)[(section@, key@)] == v@,
            None => !ini_entries(*doc).contains_key((section@, key@)),
        },
{
    doc.get_from(Some(section), key).map(|v| v.to_owned())
}

} // verus!
