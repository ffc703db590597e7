//! Themes, their catalog and the lookup of icons in them.
use vstd::prelude::*;
use crate::SizeScheme;
use crate::theme::closest::closest_order;
use crate::theme::closest::closest_positions;
use crate::theme::closest::indices;
use crate::theme::directories::Directory;
use crate::theme::directories::DirectoryView;
use crate::theme::directories::directory_views;
use crate::theme::parse::described_directories;
use crate::theme::paths::ThemePath;
use crate::theme::text::contains_text;
use crate::theme::text::join;
use crate::theme::text::join_path;
use crate::theme::text::texts;

pub mod catalog;
pub mod closest;
pub mod directories;
pub mod document;
pub mod error;
pub mod laws;
pub mod lookup;
pub mod parse;
pub mod paths;
pub mod text;

verus! {

/// One place where a theme lies, with the index document that describes it.
#[derive(Clone, Debug, PartialEq, Eq)]
pub struct Theme {
    /// The directory of the theme.
    pub path: ThemePath,
    /// The path of the index document that is used for this directory.
    pub index: String,
}

/// A [`Theme`] with its paths as sequences of characters.
pub ghost struct ThemeView {
    pub path: Seq<char>,
    pub index: Seq<char>,
}

impl View for Theme {
    type V = ThemeView;

    open spec fn view(&self) -> ThemeView {
        ThemeView { path: self.path.0@, index: self.index@ }
    }
}

/// The characters of a path that may be missing.
pub open spec fn path_text(path: Option<String>) -> Option<Seq<char>> {
    match path {
        Some(p) => Some(p@),
        None => None,
    }
}

/// The file of the icon `name` with `extension` in the directory `dir`.
pub open spec fn icon_file(dir: Seq<char>, name: Seq<char>, extension: Seq<char>) -> Seq<char> {
    join_path(dir, name + extension)
}

/// The file of the icon `name` with `extension` in `dir`, if it is among
/// the `present` files.
pub open spec fn built_path(
    present: Seq<Seq<char>>,
    name: Seq<char>,
    dir: Seq<char>,
    extension: Seq<char>,
) -> Option<Seq<char>> {
    if present.contains(icon_file(dir, name, extension)) {
        Some(icon_file(dir, name, extension))
    } else {
        None
    }
}

/// `first` where there is one, else `second`.
pub open spec fn or_else(first: Option<Seq<char>>, second: Option<Seq<char>>) -> Option<Seq<char>> {
    match first {
        Some(p) => Some(p),
        None => second,
    }
}

/// The file that is picked for the icon `name` in `dir`: with `force_svg`
/// the `.svg` file or nothing; else the `.png` file, failing that the
/// `.svg` file, failing that the `.xmp` file.
pub open spec fn built_icon_path(
    present: Seq<Seq<char>>,
    name: Seq<char>,
    dir: Seq<char>,
    force_svg: bool,
) -> Option<Seq<char>> {
    if force_svg {
        built_path(present, name, dir, ".svg"@)
    } else {
        or_else(
            built_path(present, name, dir, ".png"@),
            or_else(
                built_path(present, name, dir, ".svg"@),
                built_path(present, name, dir, ".xmp"@),
            ),
        )
    }
}

/// The file that is picked for the icon `name` in the first of `dirs` that
/// yields one.
pub open spec fn first_icon(
    present: Seq<Seq<char>>,
    name: Seq<char>,
    dirs: Seq<Seq<char>>,
    force_svg: bool,
) -> Option<Seq<char>>
    decreases dirs.len(),
{
    if dirs.len() == 0 {
        None
    } else {
        or_else(
            built_icon_path(present, name, dirs[0], force_svg),
            first_icon(present, name, dirs.drop_first(), force_svg),
        )
    }
}

/// The paths of the subdirectories of the theme at `root` that fit `size`
/// at `scale` exactly, in the order of the index document.
pub open spec fn exact_dirs(root: Seq<char>, dirs: Seq<DirectoryView>, size: u16, scale: u16) -> Seq<
    Seq<char>,
> {
    dirs.filter(|d: DirectoryView| d.fits(size, scale)).map_values(
        |d: DirectoryView| join_path(root, d.name),
    )
}

/// The paths of the subdirectories of the theme at `root` to try when none
/// fits exactly, best first.
pub open spec fn closest_dirs(
    root: Seq<char>,
    dirs: Seq<DirectoryView>,
    size: u16,
    scale: u16,
    scheme: SizeScheme,
) -> Seq<Seq<char>> {
    closest_order(dirs, size, scale, scheme).map_values(|i: int| join_path(root, dirs[i].name))
}

/// The file that a lookup in one theme directory gives: the first icon of
/// the subdirectories that fit exactly, and only where they hold none, the
/// first icon of the subdirectories in closest order.
pub open spec fn icon_in(
    root: Seq<char>,
    dirs: Seq<DirectoryView>,
    present: Seq<Seq<char>>,
    name: Seq<char>,
    size: u16,
    scale: u16,
    scheme: SizeScheme,
    force_svg: bool,
) -> Option<Seq<char>> {
    or_else(
        first_icon(present, name, exact_dirs(root, dirs, size, scale), force_svg),
        first_icon(present, name, closest_dirs(root, dirs, size, scale, scheme), force_svg),
    )
}

/// The files that a lookup of the icon `name` in `dir` may ask for, in the
/// order in which it asks.
pub open spec fn probes_in(name: Seq<char>, dir: Seq<char>, force_svg: bool) -> Seq<Seq<char>> {
    if force_svg {
        seq![icon_file(dir, name, ".svg"@)]
    } else {
        seq![
            icon_file(dir, name, ".png"@),
            icon_file(dir, name, ".svg"@),
            icon_file(dir, name, ".xmp"@),
        ]
    }
}

/// The files that a lookup of the icon `name` in `dirs` may ask for, in the
/// order in which it asks.
pub open spec fn probes(name: Seq<char>, dirs: Seq<Seq<char>>, force_svg: bool) -> Seq<Seq<char>>
    decreases dirs.len(),
{
    if dirs.len() == 0 {
        Seq::empty()
    } else {
        probes(name, dirs.drop_last(), force_svg) + probes_in(name, dirs.last(), force_svg)
    }
}

/// The files that a lookup in one theme directory may ask for: those of the
/// exact pass, then those of the closest pass.
pub open spec fn probes_of(
    root: Seq<char>,
    dirs: Seq<DirectoryView>,
    name: Seq<char>,
    size: u16,
    scale: u16,
    scheme: SizeScheme,
    force_svg: bool,
) -> Seq<Seq<char>> {
    probes(
        name,
        exact_dirs(root, dirs, size, scale) + closest_dirs(root, dirs, size, scale, scheme),
        force_svg,
    )
}

/// Builds the path of the icon `name` with `extension` in `path`.
fn file_of(name: &str, path: &str, extension: &str) -> (file: String)
    ensures
        file@ == icon_file(path@, name@, extension@),
{
    let mut leaf = String::from_str(name);
    leaf.append(extension);
    join(path, leaf.as_str())
}

/// Lists the files that a lookup of the icon `name` in `dirs` may ask for.
/// Whether the other files exist makes no difference to the lookup.
pub fn files_to_probe(name: &str, dirs: &Vec<String>, force_svg: bool) -> (files: Vec<String>)
    ensures
        texts(files@) == probes(name@, texts(dirs@), force_svg),
{
    let mut files: Vec<String> = Vec::new();
    let mut i: usize = 0;
    proof {
        assert(texts(dirs@).take(0) =~= Seq::<Seq<char>>::empty());
        assert(texts(files@) =~= Seq::<Seq<char>>::empty());
    }
    while i < dirs.len()
        invariant
            i <= dirs.len(),
            texts(files@) == probes(name@, texts(dirs@).take(i as int), force_svg),
        decreases dirs.len() - i,
    {
        proof {
            assert(texts(dirs@).take(i + 1).drop_last() =~= texts(dirs@).take(i as int));
            assert(texts(dirs@).take(i + 1).last() == dirs[i as int]@);
        }
        let ghost earlier = texts(files@);
        let dir = dirs[i].as_str();
        if force_svg {
            let svg = file_of(name, dir, ".svg");
            files.push(svg);
            assert(texts(files@) =~= earlier + seq![svg@]);
        } else {
            let png = file_of(name, dir, ".png");
            let svg = file_of(name, dir, ".svg");
            let xmp = file_of(name, dir, ".xmp");
            files.push(png);
            files.push(svg);
            files.push(xmp);
            assert(texts(files@) =~= earlier + seq![png@, svg@, xmp@]);
        }
        i += 1;
    }
    proof {
        assert(texts(dirs@).take(i as int) =~= texts(dirs@));
    }
    files
}

/// Builds the file name of an icon with one extension and returns its path
/// in `path` where that file is present.
fn try_build(name: &str, path: &str, extension: &str, present: &Vec<String>) -> (file: Option<
    String,
>)
    ensures
        path_text(file) == built_path(texts(present@), name@, path@, extension@),
{
    let file = file_of(name, path, extension);
    if contains_text(present, file.as_str()) {
        Some(file)
    } else {
        None
    }
}

/// The `.svg` file of the icon `name` in `path`, if it is present.
pub fn try_build_svg(name: &str, path: &str, present: &Vec<String>) -> (file: Option<String>)
    ensures
        path_text(file) == built_path(texts(present@), name@, path@, ".svg"@),
{
    try_build(name, path, ".svg", present)
}

/// The `.png` file of the icon `name` in `path`, if it is present.
pub fn try_build_png(name: &str, path: &str, present: &Vec<String>) -> (file: Option<String>)
    ensures
        path_text(file) == built_path(texts(present@), name@, path@, ".png"@),
{
    try_build(name, path, ".png", present)
}

/// The `.xmp` file of the icon `name` in `path`, if it is present.
pub fn try_build_xmp(name: &str, path: &str, present: &Vec<String>) -> (file: Option<String>)
    ensures
        path_text(file) == built_path(texts(present@), name@, path@, ".xmp"@),
{
    try_build(name, path, ".xmp", present)
}

/// Picks the file of the icon `name` in the directory `path` among the
/// `present` files: with `force_svg` only the `.svg` file counts; else the
/// `.png` file goes before the `.svg` file, and that before the `.xmp`
/// file.
pub fn try_build_icon_path(name: &str, path: &str, force_svg: bool, present: &Vec<String>) -> (file:
    Option<String>)
    ensures
        path_text(file) == built_icon_path(texts(present@), name@, path@, force_svg),
{
    if force_svg {
        try_build_svg(name, path, present)
    } else {
        match try_build_png(name, path, present) {
            Some(png) => Some(png),
            None => match try_build_svg(name, path, present) {
                Some(svg) => Some(svg),
                None => try_build_xmp(name, path, present),
            },
        }
    }
}

/// Picks the file of the icon `name` in the first of `dirs` that holds one.
pub fn first_icon_in(name: &str, dirs: &Vec<String>, force_svg: bool, present: &Vec<String>) -> (file:
    Option<String>)
    ensures
        path_text(file) == first_icon(texts(present@), name@, texts(dirs@), force_svg),
{
    let ghost all = texts(dirs@);
    let mut i: usize = 0;
    proof {
        assert(all.skip(0) =~= all);
    }
    while i < dirs.len()
        invariant
            i <= dirs.len(),
            all == texts(dirs@),
            first_icon(texts(present@), name@, all, force_svg) == first_icon(
                texts(present@),
                name@,
                all.skip(i as int),
                force_svg,
            ),
        decreases dirs.len() - i,
    {
        proof {
            assert(all.skip(i as int).drop_first() =~= all.skip(i + 1));
            assert(all.skip(i as int)[0] == dirs[i as int]@);
        }
        match try_build_icon_path(name, dirs[i].as_str(), force_svg, present) {
            Some(file) => {
                return Some(file);
            },
            None => {},
        }
        i += 1;
    }
    None
}

impl Theme {
    /// The directory of the theme.
    pub fn path(&self) -> (path: &String)
        ensures
            path@ == self@.path,
    {
        &self.path.0
    }

    /// The paths of the subdirectories among `dirs` that fit `size` at
    /// `scale` exactly, in the order of `dirs`.
    pub fn exact_paths(&self, dirs: &Vec<Directory>, size: u16, scale: u16) -> (paths: Vec<String>)
        ensures
            texts(paths@) == exact_dirs(self@.path, directory_views(dirs@), size, scale),
    {
        let ghost views = directory_views(dirs@);
        let ghost fits = |d: DirectoryView| d.fits(size, scale);
        let ghost place = |d: DirectoryView| join_path(self@.path, d.name);
        let mut paths: Vec<String> = Vec::new();
        let mut i: usize = 0;
        proof {
            reveal(Seq::filter);
            assert(views.take(0) =~= Seq::<DirectoryView>::empty());
            assert(texts(paths@) =~= views.take(0).filter(fits).map_values(place));
        }
        while i < dirs.len()
            invariant
                i <= dirs.len(),
                views == directory_views(dirs@),
                fits == |d: DirectoryView| d.fits(size, scale),
                place == |d: DirectoryView| join_path(self@.path, d.name),
                texts(paths@) == views.take(i as int).filter(fits).map_values(place),
            decreases dirs.len() - i,
        {
            proof {
                assert(views.take(i + 1) =~= views.take(i as int).push(dirs[i as int]@));
                views.take(i as int).lemma_filter_push(dirs[i as int]@, fits);
            }
            if dirs[i].match_size(size, scale) {
                let ghost earlier = texts(paths@);
                let path = join(self.path().as_str(), dirs[i].name.as_str());
                paths.push(path);
                proof {
                    assert(texts(paths@) =~= earlier.push(path@));
                    assert(views.take(i + 1).filter(fits).map_values(place) =~= views.take(
                        i as int,
                    ).filter(fits).map_values(place).push(place(dirs[i as int]@)));
                }
            }
            i += 1;
        }
        proof {
            assert(views.take(i as int) =~= views);
        }
        paths
    }

    /// The paths of the subdirectories among `dirs` to try when none fits
    /// exactly, best first.
    pub fn closest_paths(&self, dirs: &Vec<Directory>, size: u16, size_scheme: SizeScheme, scale: u16)
        -> (paths: Vec<String>)
        ensures
            texts(paths@) == closest_dirs(
                self@.path,
                directory_views(dirs@),
                size,
                scale,
                size_scheme,
            ),
    {
        let ghost views = directory_views(dirs@);
        let ghost place = |i: int| join_path(self@.path, views[i].name);
        let order = closest_positions(dirs, size, size_scheme, scale);
        proof {
            closest::lemma_order_in_range(views, size, scale, size_scheme);
        }
        let mut paths: Vec<String> = Vec::new();
        let mut k: usize = 0;
        proof {
            assert(indices(order@).take(0) =~= Seq::<int>::empty());
            assert(texts(paths@) =~= indices(order@).take(0).map_values(place));
        }
        while k < order.len()
            invariant
                k <= order.len(),
                views == directory_views(dirs@),
                place == |i: int| join_path(self@.path, views[i].name),
                forall|q: int| 0 <= q < order.len() ==> 0 <= #[trigger] indices(order@)[q] < dirs.len(),
                texts(paths@) == indices(order@).take(k as int).map_values(place),
            decreases order.len() - k,
        {
            let ghost earlier = texts(paths@);
            assert(0 <= indices(order@)[k as int] < dirs.len());
            let path = join(self.path().as_str(), dirs[order[k]].name.as_str());
            paths.push(path);
            proof {
                assert(views[order[k as int] as int] == dirs[order[k as int] as int]@);
                assert(texts(paths@) =~= earlier.push(path@));
                assert(indices(order@).take(k + 1).map_values(place) =~= indices(order@).take(
                    k as int,
                ).map_values(place).push(place(order[k as int] as int)));
            }
            k += 1;
        }
        proof {
            assert(indices(order@).take(k as int) =~= indices(order@));
        }
        paths
    }

    /// The icon `name` in the first of the subdirectories among `dirs` that
    /// fit `size` at `scale` exactly and hold it.
    pub fn exact_icon(
        &self,
        dirs: &Vec<Directory>,
        name: &str,
        size: u16,
        scale: u16,
        force_svg: bool,
        present: &Vec<String>,
    ) -> (file: Option<String>)
        ensures
            path_text(file) == first_icon(
                texts(present@),
                name@,
                exact_dirs(self@.path, directory_views(dirs@), size, scale),
                force_svg,
            ),
    {
        let paths = self.exact_paths(dirs, size, scale);
        first_icon_in(name, &paths, force_svg, present)
    }

    /// The icon `name` in the first of the subdirectories among `dirs`, in
    /// closest order, that holds it.
    pub fn closest_icon(
        &self,
        dirs: &Vec<Directory>,
        name: &str,
        size: u16,
        size_scheme: SizeScheme,
        scale: u16,
        force_svg: bool,
        present: &Vec<String>,
    ) -> (file: Option<String>)
        ensures
            path_text(file) == first_icon(
                texts(present@),
                name@,
                closest_dirs(self@.path, directory_views(dirs@), size, scale, size_scheme),
                force_svg,
            ),
    {
        let paths = self.closest_paths(dirs, size, size_scheme, scale);
        first_icon_in(name, &paths, force_svg, present)
    }

    /// Looks the icon `name` up among `dirs`, the subdirectories of this
    /// theme directory: first where the size fits exactly, then in closest
    /// order.
    pub fn find_icon(
        &self,
        dirs: &Vec<Directory>,
        name: &str,
        size: u16,
        size_scheme: SizeScheme,
        scale: u16,
        force_svg: bool,
        present: &Vec<String>,
    ) -> (file: Option<String>)
        ensures
            path_text(file) == icon_in(
                self@.path,
                directory_views(dirs@),
                texts(present@),
                name@,
                size,
                scale,
                size_scheme,
                force_svg,
            ),
    {
        match self.exact_icon(dirs, name, size, scale, force_svg, present) {
            Some(file) => Some(file),
            None => self.closest_icon(dirs, name, size, size_scheme, scale, force_svg, present),
        }
    }

    /// Looks the icon `name` up in this theme directory. `file` is the text
    /// of the index document and `present` the files that exist. The
    /// subdirectories that fit `size` at `scale` exactly are tried first, in
    /// the order of the document, then all candidates in the order that
    /// `size_scheme` gives. In each the formats are tried in their order.
    pub fn try_get_icon(
        &self,
        file: &str,
        name: &str,
        size: u16,
        size_scheme: SizeScheme,
        scale: u16,
        force_svg: bool,
        present: &Vec<String>,
    ) -> (icon: Option<String>)
        ensures
            path_text(icon) == icon_in(
                self@.path,
                described_directories(file@),
                texts(present@),
                name@,
                size,
                scale,
                size_scheme,
                force_svg,
            ),
    {
        let dirs = self.get_all_directories(file);
        self.find_icon(&dirs, name, size, size_scheme, scale, force_svg, present)
    }

    /// The icon `name` in the first subdirectory that fits `size` at `scale`
    /// exactly and holds it.
    pub fn try_get_icon_exact_size(
        &self,
        file: &str,
        name: &str,
        size: u16,
        scale: u16,
        force_svg: bool,
        present: &Vec<String>,
    ) -> (icon: Option<String>)
        ensures
            path_text(icon) == first_icon(
                texts(present@),
                name@,
                exact_dirs(self@.path, described_directories(file@), size, scale),
                force_svg,
            ),
    {
        let dirs = self.get_all_directories(file);
        self.exact_icon(&dirs, name, size, scale, force_svg, present)
    }

    /// The paths of the subdirectories that fit `size` at `scale` exactly.
    pub fn match_size(&self, file: &str, size: u16, scale: u16) -> (paths: Vec<String>)
        ensures
            texts(paths@) == exact_dirs(self@.path, described_directories(file@), size, scale),
    {
        let dirs = self.get_all_directories(file);
        self.exact_paths(&dirs, size, scale)
    }

    /// The icon `name` in the first subdirectory, in closest order, that
    /// holds it.
    pub fn try_get_icon_closest_size(
        &self,
        file: &str,
        name: &str,
        size: u16,
        size_scheme: SizeScheme,
        scale: u16,
        force_svg: bool,
        present: &Vec<String>,
    ) -> (icon: Option<String>)
        ensures
            path_text(icon) == first_icon(
                texts(present@),
                name@,
                closest_dirs(self@.path, described_directories(file@), size, scale, size_scheme),
                force_svg,
            ),
    {
        let dirs = self.get_all_directories(file);
        self.closest_icon(&dirs, name, size, size_scheme, scale, force_svg, present)
    }

    /// Lists the files that a lookup of the icon `name` in this theme
    /// directory may ask for. A caller that knows which of them exist knows
    /// enough for [`Theme::try_get_icon`].
    pub fn files_to_probe(
        &self,
        file: &str,
        name: &str,
        size: u16,
        size_scheme: SizeScheme,
        scale: u16,
        force_svg: bool,
    ) -> (files: Vec<String>)
        ensures
            texts(files@) == probes_of(
                self@.path,
                described_directories(file@),
                name@,
                size,
                scale,
                size_scheme,
                force_svg,
            ),
    {
        let dirs = self.get_all_directories(file);
        let mut paths = self.exact_paths(&dirs, size, scale);
        let mut closest = self.closest_paths(&dirs, size, size_scheme, scale);
        let ghost exact = texts(paths@);
        let ghost rest = texts(closest@);
        paths.append(&mut closest);
        proof {
            assert(texts(paths@) =~= exact + rest);
        }
        files_to_probe(name, &paths, force_svg)
    }

    /// The paths of the subdirectories to try when none fits exactly, best
    /// first.
    pub fn closest_match_size(&self, file: &str, size: u16, size_scheme: SizeScheme, scale: u16)
        -> (paths: Vec<String>)
        ensures
            texts(paths@) == closest_dirs(
                self@.path,
                described_directories(file@),
                size,
                scale,
                size_scheme,
            ),
    {
        let dirs = self.get_all_directories(file);
        self.closest_paths(&dirs, size, size_scheme, scale)
    }
}

} // verus!
