//! From an index document to the subdirectories that it describes.
use vstd::prelude::*;
use ini::Ini;
use crate::theme::Theme;
use crate::theme::directories::Directory;
use crate::theme::directories::DirectoryType;
use crate::theme::directories::DirectoryView;
use crate::theme::directories::directory_views;
use crate::theme::document::get_entry;
use crate::theme::document::ini_entries;
use crate::theme::document::ini_parse;
use crate::theme::text::parse_u16;
use crate::theme::text::parsed_u16;
use crate::theme::text::split;
use crate::theme::text::split_at_each;
use crate::theme::text::texts;

verus! {

/// The number that `key` holds in `section`, if it holds one.
pub open spec fn entry_number(
    entries: Map<(Seq<char>, Seq<char>), Seq<char>>,
    section: Seq<char>,
    key: Seq<char>,
) -> Option<u16> {
    if entries.contains_key((section, key)) {
        parsed_u16(entries[(section, key)])
    } else {
        None
    }
}

/// `number` where there is one, else `default`.
pub open spec fn number_or(number: Option<u16>, default: u16) -> u16 {
    match number {
        Some(n) => n,
        None => default,
    }
}

/// The kind that `section` declares for a subdirectory of nominal size
/// `size`. Without a `Type` the kind is fixed. The bounds of a scalable
/// subdirectory default to `size`, the threshold defaults to 2. Any other
/// `Type` is no kind at all.
pub open spec fn decoded_type(
    entries: Map<(Seq<char>, Seq<char>), Seq<char>>,
    section: Seq<char>,
    size: u16,
) -> Option<DirectoryType> {
    if !entries.contains_key((section, "Type"@)) {
        Some(DirectoryType::Fixed)
    } else {
        let declared = entries[(section, "Type"@)];
        if declared == "Fixed"@ {
            Some(DirectoryType::Fixed)
        } else if declared == "Scalable"@ {
            Some(
                DirectoryType::Scalable {
                    min_size: number_or(entry_number(entries, section, "MinSize"@), size),
                    max_size: number_or(entry_number(entries, section, "MaxSize"@), size),
                },
            )
        } else if declared == "Threshold"@ {
            Some(
                DirectoryType::Threshold {
                    threshold: number_or(entry_number(entries, section, "Threshold"@), 2),
                },
            )
        } else {
            None
        }
    }
}

/// The subdirectory that the section called `name` describes. There is
/// none where the section has no readable `Size` or declares an unknown
/// `Type`. The scale defaults to 1.
pub open spec fn decoded_directory(
    entries: Map<(Seq<char>, Seq<char>), Seq<char>>,
    name: Seq<char>,
) -> Option<DirectoryView> {
    match entry_number(entries, name, "Size"@) {
        None => None,
        Some(size) => match decoded_type(entries, name, size) {
            None => None,
            Some(type_) => Some(
                DirectoryView {
                    name,
                    size,
                    scale: number_or(entry_number(entries, name, "Scale"@), 1),
                    type_,
                },
            ),
        },
    }
}

/// The names that the `Directories` list of the `Icon Theme` section
/// holds, split at its commas; none where there is no such list.
pub open spec fn listed_names(entries: Map<(Seq<char>, Seq<char>), Seq<char>>) -> Seq<Seq<char>> {
    if entries.contains_key(("Icon Theme"@, "Directories"@)) {
        split_at_each(entries[("Icon Theme"@, "Directories"@)], ',')
    } else {
        Seq::empty()
    }
}

/// The subdirectories that a document describes, in the order of its
/// `Directories` list. A listed name without a usable section is skipped.
pub open spec fn decoded_directories(entries: Map<(Seq<char>, Seq<char>), Seq<char>>) -> Seq<
    DirectoryView,
> {
    listed_names(entries).filter_map(|name: Seq<char>| decoded_directory(entries, name))
}

/// Whether two texts hold the same characters.
fn same_text(a: &str, b: &str) -> (same: bool)
    ensures
        same == (a@ == b@),
{
    String::from_str(a) == String::from_str(b)
}

/// Reads the number that `key` holds in `section`.
fn read_number(doc: &Ini, section: &str, key: &str) -> (number: Option<u16>)
    ensures
        number == entry_number(ini_entries(*doc), section@, key@),
{
    match get_entry(doc, section, key) {
        Some(text) => parse_u16(text.as_str()),
        None => None,
    }
}

/// Reads `key` in `section` as a number, with a default.
fn read_number_or(doc: &Ini, section: &str, key: &str, default: u16) -> (number: u16)
    ensures
        number == number_or(entry_number(ini_entries(*doc), section@, key@), default),
{
    match read_number(doc, section, key) {
        Some(n) => n,
        None => default,
    }
}

/// Reads the kind that `section` declares.
fn read_type(doc: &Ini, section: &str, size: u16) -> (type_: Option<DirectoryType>)
    ensures
        type_ == decoded_type(ini_entries(*doc), section@, size),
{
    match get_entry(doc, section, "Type") {
        None => Some(DirectoryType::Fixed),
        Some(declared) => {
            if same_text(declared.as_str(), "Fixed") {
                Some(DirectoryType::Fixed)
            } else if same_text(declared.as_str(), "Scalable") {
                let min_size = read_number_or(doc, section, "MinSize", size);
                let max_size = read_number_or(doc, section, "MaxSize", size);
                Some(DirectoryType::Scalable { min_size, max_size })
            } else if same_text(declared.as_str(), "Threshold") {
                let threshold = read_number_or(doc, section, "Threshold", 2);
                Some(DirectoryType::Threshold { threshold })
            } else {
                None
            }
        },
    }
}

/// Reads the subdirectory that the section called `name` describes.
pub fn read_directory(doc: &Ini, name: &str) -> (dir: Option<Directory>)
    ensures
        match dir {
            Some(d) => decoded_directory(ini_entries(*doc), name@) == Some(d@),
            None => decoded_directory(ini_entries(*doc), name@) is None,
        },
{
    match read_number(doc, name, "Size") {
        None => None,
        Some(size) => match read_type(doc, name, size) {
            None => None,
            Some(type_) => {
                let scale = read_number_or(doc, name, "Scale", 1);
                Some(Directory { name: String::from_str(name), size, scale, type_ })
            },
        },
    }
}

/// Reads all subdirectories that a document describes, in the order of its
/// `Directories` list.
pub fn read_directories(doc: &Ini) -> (dirs: Vec<Directory>)
    ensures
        directory_views(dirs@) == decoded_directories(ini_entries(*doc)),
{
    let ghost entries = ini_entries(*doc);
    let ghost decode = |name: Seq<char>| decoded_directory(entries, name);
    let mut dirs: Vec<Directory> = Vec::new();
    let names = match get_entry(doc, "Icon Theme", "Directories") {
        Some(list) => split(list.as_str(), ','),
        None => Vec::new(),
    };
    assert(texts(names@) =~= listed_names(entries));
    let mut i: usize = 0;
    proof {
        assert(texts(names@).take(0) =~= Seq::<Seq<char>>::empty());
        assert(directory_views(dirs@) =~= Seq::<DirectoryView>::empty());
    }
    while i < names.len()
        invariant
            i <= names.len(),
            entries == ini_entries(*doc),
            decode == |name: Seq<char>| decoded_directory(entries, name),
            directory_views(dirs@) == texts(names@).take(i as int).filter_map(decode),
        decreases names.len() - i,
    {
        proof {
            let longer = texts(names@).take(i + 1);
            assert(longer.drop_last() =~= texts(names@).take(i as int));
            assert(longer.last() == names[i as int]@);
        }
        let ghost earlier = directory_views(dirs@);
        match read_directory(doc, names[i].as_str()) {
            Some(dir) => {
                dirs.push(dir);
                assert(directory_views(dirs@) =~= earlier + seq![dir@]);
            },
            None => {},
        }
        i += 1;
    }
    proof {
        assert(texts(names@).take(i as int) =~= texts(names@));
    }
    dirs
}

/// The subdirectories that the text of an index document describes; none
/// where the text does not parse.
pub open spec fn described_directories(file: Seq<char>) -> Seq<DirectoryView> {
    match ini_parse(file) {
        Some(entries) => decoded_directories(entries),
        None => Seq::empty(),
    }
}

impl Theme {
    /// Reads the subdirectories that `file`, the text of an index document,
    /// describes. A text that does not parse describes none.
    pub fn get_all_directories(&self, file: &str) -> (dirs: Vec<Directory>)
        ensures
            directory_views(dirs@) == described_directories(file@),
    {
        match Ini::load_from_str(file) {
            Ok(doc) => read_directories(&doc),
            Err(_) => {
                let dirs: Vec<Directory> = Vec::new();
                assert(directory_views(dirs@) =~= Seq::<DirectoryView>::empty());
                dirs
            },
        }
    }
}

} // verus!
