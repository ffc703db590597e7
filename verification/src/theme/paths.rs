//! Theme directories: where their index document lies, how one is made up
//! for a directory that has none, and where themes are searched.
use vstd::prelude::*;
use ini::Ini;
use crate::theme::document::ini_entries;
use crate::theme::document::ini_parse;
use crate::theme::document::no_entries;
use crate::theme::document::set_entry;
use crate::theme::error::ThemeError;
use crate::theme::text::chars_of;
use crate::theme::text::contains_text;
use crate::theme::text::decimal_digits;
use crate::theme::text::decimal_text;
use crate::theme::text::join;
use crate::theme::text::join_path;
use crate::theme::text::leading;
use crate::theme::text::leading_part;
use crate::theme::text::parse_u16;
use crate::theme::text::parsed_u16;
use crate::theme::text::texts;

verus! {

/// The directory of one theme under one search root.
#[derive(Clone, Debug, PartialEq, Eq)]
pub struct ThemePath(pub String);

/// What was found at the place of a theme's index document.
#[derive(Clone, Debug, PartialEq, Eq)]
pub enum IndexFile {
    /// There is no such file.
    Missing,
    /// The file exists but could not be read; the message says why.
    Unreadable(String),
    /// The text of the file.
    Text(String),
}

/// One directory directly below a theme directory, with the directories
/// found anywhere below it. All paths are given as they were walked, the
/// theme directory in front.
#[derive(Clone, Debug, PartialEq, Eq)]
pub struct SizeBucket {
    /// The path of the directory itself.
    pub path: String,
    /// The paths of the directories below it.
    pub nested: Vec<String>,
}

/// A [`SizeBucket`] with its paths as sequences of characters.
pub ghost struct SizeBucketView {
    pub path: Seq<char>,
    pub nested: Seq<Seq<char>>,
}

impl View for SizeBucket {
    type V = SizeBucketView;

    open spec fn view(&self) -> SizeBucketView {
        SizeBucketView { path: self.path@, nested: texts(self.nested@) }
    }
}

/// The views of a list of buckets.
pub open spec fn bucket_views(buckets: Seq<SizeBucket>) -> Seq<SizeBucketView> {
    buckets.map_values(|b: SizeBucket| b@)
}

/// What listing a theme directory gave.
#[derive(Clone, Debug, PartialEq, Eq)]
pub enum Listing {
    /// The directory could not be listed; the message says why.
    Unreadable(String),
    /// The directories directly below the theme directory.
    Buckets(Vec<SizeBucket>),
}

/// The part of `path` below `root`: what follows `root` and one `/`.
/// There is none where `path` does not start that way.
pub open spec fn relative_part(path: Seq<char>, root: Seq<char>) -> Option<Seq<char>> {
    if path.len() > root.len() && path.take(root.len() as int) == root && path[root.len() as int]
        == '/' {
        Some(path.skip(root.len() as int + 1))
    } else {
        None
    }
}

/// The nominal size that the name of a size directory stands for: the
/// number before its first `x`, or 128 where that is no number.
pub open spec fn bucket_size(name: Seq<char>) -> u16 {
    match parsed_u16(leading_part(name, 'x')) {
        Some(size) => size,
        None => 128,
    }
}

/// The subdirectories that one bucket contributes, each with the nominal
/// size of the bucket: the directories below it, named by their path below
/// the theme directory. A bucket outside the theme directory contributes
/// nothing, and so does a directory outside it.
pub open spec fn bucket_entries(root: Seq<char>, bucket: SizeBucketView) -> Seq<(Seq<char>, u16)> {
    match relative_part(bucket.path, root) {
        None => Seq::empty(),
        Some(name) => bucket.nested.filter_map(|p: Seq<char>| relative_part(p, root)).map_values(
            |n: Seq<char>| (n, bucket_size(name)),
        ),
    }
}

/// The subdirectories that a listing contributes, bucket after bucket.
pub open spec fn synthesized(root: Seq<char>, buckets: Seq<SizeBucketView>) -> Seq<
    (Seq<char>, u16),
>
    decreases buckets.len(),
{
    if buckets.len() == 0 {
        Seq::empty()
    } else {
        synthesized(root, buckets.drop_last()) + bucket_entries(root, buckets.last())
    }
}

/// `entries` after the `Size` of each subdirectory was set in its section,
/// one after the other.
pub open spec fn with_sizes(
    entries: Map<(Seq<char>, Seq<char>), Seq<char>>,
    sized: Seq<(Seq<char>, u16)>,
) -> Map<(Seq<char>, Seq<char>), Seq<char>>
    decreases sized.len(),
{
    if sized.len() == 0 {
        entries
    } else {
        with_sizes(entries, sized.drop_last()).insert(
            (sized.last().0, "Size"@),
            decimal_digits(sized.last().1 as nat),
        )
    }
}

/// The names with `separator` between them.
pub open spec fn joined(names: Seq<Seq<char>>, separator: char) -> Seq<char>
    decreases names.len(),
{
    if names.len() == 0 {
        Seq::empty()
    } else if names.len() == 1 {
        names[0]
    } else {
        joined(names.drop_last(), separator) + seq![separator] + names.last()
    }
}

/// The names of sized subdirectories.
pub open spec fn names_of(sized: Seq<(Seq<char>, u16)>) -> Seq<Seq<char>> {
    sized.map_values(|e: (Seq<char>, u16)| e.0)
}

/// What the index document made up for a listing holds: the `Size` of each
/// subdirectory in the section of its name, and their names as the
/// `Directories` list of the `Icon Theme` section.
pub open spec fn generated_entries(root: Seq<char>, buckets: Seq<SizeBucketView>) -> Map<
    (Seq<char>, Seq<char>),
    Seq<char>,
> {
    let sized = synthesized(root, buckets);
    with_sizes(no_entries(), sized).insert(
        ("Icon Theme"@, "Directories"@),
        joined(names_of(sized), ','),
    )
}

/// Cuts `root` and the `/` behind it off `path`.
pub fn relative_to(path: &str, root: &str) -> (rest: Option<String>)
    ensures
        match rest {
            Some(r) => relative_part(path@, root@) == Some(r@),
            None => relative_part(path@, root@) is None,
        },
{
    let whole = chars_of(path);
    let front = chars_of(root);
    if whole.len() <= front.len() {
        return None;
    }
    let mut i: usize = 0;
    while i < front.len()
        invariant
            whole@ == path@,
            front@ == root@,
            i <= front.len() < whole.len(),
            forall|j: int| 0 <= j < i ==> path@[j] == root@[j],
        decreases front.len() - i,
    {
        if whole[i] != front[i] {
            proof {
                assert(path@.take(root@.len() as int)[i as int] != root@[i as int]);
            }
            return None;
        }
        i += 1;
    }
    assert(path@.take(root@.len() as int) =~= root@);
    if whole[front.len()] != '/' {
        return None;
    }
    let rest = String::from_str(path.substring_char(front.len() + 1, whole.len()));
    assert(rest@ =~= path@.skip(root@.len() as int + 1));
    Some(rest)
}

/// The nominal size that the name of a size directory stands for.
pub fn size_of_bucket(name: &str) -> (size: u16)
    ensures
        size == bucket_size(name@),
{
    let head = leading(name, 'x');
    match parse_u16(head.as_str()) {
        Some(size) => size,
        None => 128,
    }
}

/// Joins the names with a comma between them.
pub fn join_list(names: &Vec<String>) -> (list: String)
    ensures
        list@ == joined(texts(names@), ','),
{
    let separator = ',';
    let separator_text = ",";
    let mut list = String::new();
    let mut i: usize = 0;
    proof {
        reveal_strlit(",");
        assert(separator_text@ =~= seq![separator]);
        assert(texts(names@).take(0) =~= Seq::<Seq<char>>::empty());
    }
    while i < names.len()
        invariant
            i <= names.len(),
            separator == ',',
            separator_text@ == seq![separator],
            list@ == joined(texts(names@).take(i as int), separator),
        decreases names.len() - i,
    {
        proof {
            let longer = texts(names@).take(i + 1);
            assert(longer.drop_last() =~= texts(names@).take(i as int));
            assert(longer.last() == names[i as int]@);
            if i == 0 {
                assert(list@ =~= Seq::<char>::empty());
                assert(longer[0] == names[0]@);
            }
        }
        if i > 0 {
            list.append(separator_text);
        }
        list.append(names[i].as_str());
        proof {
            if i == 0 {
                assert(list@ =~= names[0]@);
            }
        }
        i += 1;
    }
    proof {
        assert(texts(names@).take(i as int) =~= texts(names@));
    }
    list
}

impl ThemePath {
    /// Where the index document of this theme directory lies.
    pub fn index_path(&self) -> (path: String)
        ensures
            path@ == join_path(self.0@, "index.theme"@),
    {
        join(self.0.as_str(), "index.theme")
    }

    /// Makes up an index document for a theme directory that has none, from
    /// the directories found below it: every directory below a bucket
    /// becomes a subdirectory of the nominal size that the bucket's name
    /// stands for.
    pub fn generate_index(&self, buckets: &Vec<SizeBucket>) -> (doc: Ini)
        ensures
            ini_entries(doc) == generated_entries(self.0@, bucket_views(buckets@)),
    {
        let ghost root = self.0@;
        let ghost views = bucket_views(buckets@);
        let mut doc = Ini::new();
        let mut names: Vec<String> = Vec::new();
        let mut i: usize = 0;
        proof {
            assert(views.take(0) =~= Seq::<SizeBucketView>::empty());
            assert(texts(names@) =~= names_of(synthesized(root, views.take(0))));
        }
        while i < buckets.len()
            invariant
                i <= buckets.len(),
                root == self.0@,
                views == bucket_views(buckets@),
                ini_entries(doc) == with_sizes(no_entries(), synthesized(root, views.take(i as int))),
                texts(names@) == names_of(synthesized(root, views.take(i as int))),
            decreases buckets.len() - i,
        {
            let bucket = &buckets[i];
            let ghost done = synthesized(root, views.take(i as int));
            proof {
                let longer = views.take(i + 1);
                assert(longer.drop_last() =~= views.take(i as int));
                assert(longer.last() == bucket@);
            }
            match relative_to(bucket.path.as_str(), self.0.as_str()) {
                None => {
                    assert(done + bucket_entries(root, bucket@) =~= done);
                },
                Some(name) => {
                    let size = size_of_bucket(name.as_str());
                    let digits = decimal_text(size);
                    let ghost below = |p: Seq<char>| relative_part(p, root);
                    let ghost sized = |n: Seq<char>| (n, bucket_size(name@));
                    let mut j: usize = 0;
                    proof {
                        assert(bucket@.nested.take(0) =~= Seq::<Seq<char>>::empty());
                        assert(done + bucket@.nested.take(0).filter_map(below).map_values(sized)
                            =~= done);
                    }
                    while j < bucket.nested.len()
                        invariant
                            j <= bucket.nested.len(),
                            root == self.0@,
                            digits@ == decimal_digits(size as nat),
                            size == bucket_size(name@),
                            below == |p: Seq<char>| relative_part(p, root),
                            sized == |n: Seq<char>| (n, bucket_size(name@)),
                            ini_entries(doc) == with_sizes(
                                no_entries(),
                                done + bucket@.nested.take(j as int).filter_map(below).map_values(
                                    sized,
                                ),
                            ),
                            texts(names@) == names_of(
                                done + bucket@.nested.take(j as int).filter_map(below).map_values(
                                    sized,
                                ),
                            ),
                        decreases bucket.nested.len() - j,
                    {
                        let ghost so_far = done + bucket@.nested.take(j as int).filter_map(
                            below,
                        ).map_values(sized);
                        proof {
                            let longer = bucket@.nested.take(j + 1);
                            assert(longer.drop_last() =~= bucket@.nested.take(j as int));
                            assert(longer.last() == bucket.nested[j as int]@);
                        }
                        match relative_to(bucket.nested[j].as_str(), self.0.as_str()) {
                            None => {},
                            Some(nested_name) => {
                                set_entry(&mut doc, nested_name.as_str(), "Size", digits.as_str());
                                let ghost earlier = texts(names@);
                                names.push(nested_name);
                                proof {
                                    let next = so_far.push((nested_name@, size));
                                    assert(done + bucket@.nested.take(j + 1).filter_map(
                                        below,
                                    ).map_values(sized) =~= next);
                                    assert(next.drop_last() =~= so_far);
                                    assert(texts(names@) =~= earlier.push(nested_name@));
                                    assert(names_of(next) =~= names_of(so_far).push(nested_name@));
                                }
                            },
                        }
                        j += 1;
                    }
                    proof {
                        assert(bucket@.nested.take(j as int) =~= bucket@.nested);
                    }
                },
            }
            i += 1;
        }
        proof {
            assert(views.take(i as int) =~= views);
        }
        let list = join_list(&names);
        set_entry(&mut doc, "Icon Theme", "Directories", list.as_str());
        doc
    }

    /// Loads the index document of this theme directory from what was found
    /// at its place. A text is parsed. Where the file is missing, a greedy
    /// load makes a document up from the listing of the directory, and any
    /// other load fails. What could not be read fails with its message.
    pub fn index(&self, file: &IndexFile, greedy: bool, listing: &Listing) -> (loaded: Result<
        Ini,
        ThemeError,
    >)
        ensures
            match *file {
                IndexFile::Text(text) => match ini_parse(text@) {
                    Some(entries) => loaded matches Ok(doc) && ini_entries(doc) == entries,
                    None => loaded matches Err(ThemeError::IniError(_)),
                },
                IndexFile::Unreadable(why) => loaded matches Err(ThemeError::IoError(message))
                    && message@ == why@,
                IndexFile::Missing => if !greedy {
                    loaded matches Err(ThemeError::ThemeIndexNotFound(path)) && path@ == self.0@
                } else {
                    match *listing {
                        Listing::Buckets(buckets) => loaded matches Ok(doc) && ini_entries(doc)
                            == generated_entries(self.0@, bucket_views(buckets@)),
                        Listing::Unreadable(why) => loaded matches Err(
                            ThemeError::IoError(message),
                        ) && message@ == why@,
                    }
                },
            },
    {
        match file {
            IndexFile::Text(text) => match Ini::load_from_str(text.as_str()) {
                Ok(doc) => Ok(doc),
                Err(why) => Err(ThemeError::IniError(why)),
            },
            IndexFile::Unreadable(why) => Err(ThemeError::IoError(why.clone())),
            IndexFile::Missing => {
                if !greedy {
                    Err(ThemeError::ThemeIndexNotFound(self.0.clone()))
                } else {
                    match listing {
                        Listing::Buckets(buckets) => Ok(self.generate_index(buckets)),
                        Listing::Unreadable(why) => Err(ThemeError::IoError(why.clone())),
                    }
                }
            },
        }
    }
}

/// The directories in which themes are searched, before any test whether
/// they exist, the one that counts most first: `.icons` in the home
/// directory, where the user keeps themes of their own, then `icons` in each
/// data directory, in the order given.
pub open spec fn base_path_candidates(home: Seq<char>, data_dirs: Seq<Seq<char>>) -> Seq<Seq<char>> {
    seq![join_path(home, ".icons"@)] + data_dirs.map_values(|d: Seq<char>| join_path(d, "icons"@))
}

/// Lists the directories in which themes may lie, for the caller to test.
pub fn icon_theme_base_path_candidates(home: &str, data_dirs: &Vec<String>) -> (paths: Vec<String>)
    ensures
        texts(paths@) == base_path_candidates(home@, texts(data_dirs@)),
{
    let ghost first = seq![join_path(home@, ".icons"@)];
    let ghost below = |d: Seq<char>| join_path(d, "icons"@);
    let mut paths: Vec<String> = Vec::new();
    let own = join(home, ".icons");
    paths.push(own);
    let mut i: usize = 0;
    proof {
        assert(texts(paths@) =~= first + texts(data_dirs@).take(0).map_values(below));
    }
    while i < data_dirs.len()
        invariant
            i <= data_dirs.len(),
            first == seq![join_path(home@, ".icons"@)],
            below == |d: Seq<char>| join_path(d, "icons"@),
            texts(paths@) == first + texts(data_dirs@).take(i as int).map_values(below),
        decreases data_dirs.len() - i,
    {
        let ghost earlier = texts(paths@);
        let path = join(data_dirs[i].as_str(), "icons");
        paths.push(path);
        proof {
            assert(texts(paths@) =~= earlier.push(path@));
            assert(texts(paths@) =~= first + texts(data_dirs@).take(i + 1).map_values(below));
        }
        i += 1;
    }
    proof {
        assert(texts(data_dirs@).take(i as int) =~= texts(data_dirs@));
    }
    paths
}

/// The directories in which themes are searched, the one that counts most
/// first: the candidates of [`base_path_candidates`] that are among the
/// `present` paths, in their order. The user's own directory, where it
/// exists, goes before every data directory.
pub fn icon_theme_base_paths(home: &str, data_dirs: &Vec<String>, present: &Vec<String>) -> (paths:
    Vec<String>)
    ensures
        texts(paths@) == base_path_candidates(home@, texts(data_dirs@)).filter(
            |p: Seq<char>| texts(present@).contains(p),
        ),
{
    let candidates = icon_theme_base_path_candidates(home, data_dirs);
    let ghost exists = |p: Seq<char>| texts(present@).contains(p);
    let mut paths: Vec<String> = Vec::new();
    let mut i: usize = 0;
    proof {
        reveal(Seq::filter);
        assert(texts(candidates@).take(0) =~= Seq::<Seq<char>>::empty());
        assert(texts(paths@) =~= Seq::<Seq<char>>::empty());
    }
    while i < candidates.len()
        invariant
            i <= candidates.len(),
            exists == |p: Seq<char>| texts(present@).contains(p),
            texts(paths@) == texts(candidates@).take(i as int).filter(exists),
        decreases candidates.len() - i,
    {
        proof {
            let longer = texts(candidates@).take(i + 1);
            assert(longer =~= texts(candidates@).take(i as int).push(candidates[i as int]@));
            texts(candidates@).take(i as int).lemma_filter_push(candidates[i as int]@, exists);
        }
        if contains_text(present, candidates[i].as_str()) {
            let ghost earlier = texts(paths@);
            paths.push(candidates[i].clone());
            assert(texts(paths@) =~= earlier.push(candidates[i as int]@));
        }
        i += 1;
    }
    proof {
        assert(texts(candidates@).take(i as int) =~= texts(candidates@));
    }
    paths
}

} // verus!
