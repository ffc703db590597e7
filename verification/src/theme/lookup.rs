//! The lookup of an icon over all places of a theme.
use vstd::prelude::*;
use crate::SizeScheme;
use crate::theme::Theme;
use crate::theme::ThemeView;
use crate::theme::catalog::theme_views;
use crate::theme::closest_dirs;
use crate::theme::directories::Directory;
use crate::theme::directories::DirectoryView;
use crate::theme::directories::directory_views;
use crate::theme::exact_dirs;
use crate::theme::first_icon;
use crate::theme::files_to_probe;
use crate::theme::first_icon_in;
use crate::theme::or_else;
use crate::theme::parse::described_directories;
use crate::theme::path_text;
use crate::theme::probes;
use crate::theme::text::texts;

verus! {

/// The subdirectories of the place at position `i`: those of the manifest
/// at that position, none where the manifests end before it.
pub open spec fn manifest_at(manifests: Seq<Seq<DirectoryView>>, i: int) -> Seq<DirectoryView> {
    if 0 <= i < manifests.len() {
        manifests[i]
    } else {
        Seq::empty()
    }
}

/// The subdirectories that fit exactly, over all places of a theme: those
/// of the first place first.
pub open spec fn all_exact_dirs(
    themes: Seq<ThemeView>,
    manifests: Seq<Seq<DirectoryView>>,
    size: u16,
    scale: u16,
) -> Seq<Seq<char>>
    decreases themes.len(),
{
    if themes.len() == 0 {
        Seq::empty()
    } else {
        all_exact_dirs(themes.drop_last(), manifests, size, scale) + exact_dirs(
            themes.last().path,
            manifest_at(manifests, themes.len() - 1),
            size,
            scale,
        )
    }
}

/// The subdirectories in closest order, over all places of a theme: those
/// of the first place first.
pub open spec fn all_closest_dirs(
    themes: Seq<ThemeView>,
    manifests: Seq<Seq<DirectoryView>>,
    size: u16,
    scale: u16,
    scheme: SizeScheme,
) -> Seq<Seq<char>>
    decreases themes.len(),
{
    if themes.len() == 0 {
        Seq::empty()
    } else {
        all_closest_dirs(themes.drop_last(), manifests, size, scale, scheme) + closest_dirs(
            themes.last().path,
            manifest_at(manifests, themes.len() - 1),
            size,
            scale,
            scheme,
        )
    }
}

/// The file that a lookup over all places of a theme gives: the first icon
/// of a subdirectory that fits exactly, in whichever place; only where no
/// place has one, the first icon in closest order.
pub open spec fn resolved(
    themes: Seq<ThemeView>,
    manifests: Seq<Seq<DirectoryView>>,
    present: Seq<Seq<char>>,
    name: Seq<char>,
    size: u16,
    scale: u16,
    scheme: SizeScheme,
    force_svg: bool,
) -> Option<Seq<char>> {
    or_else(
        first_icon(present, name, all_exact_dirs(themes, manifests, size, scale), force_svg),
        first_icon(
            present,
            name,
            all_closest_dirs(themes, manifests, size, scale, scheme),
            force_svg,
        ),
    )
}

/// The views of the manifests of the places of a theme.
pub open spec fn manifest_views(manifests: Seq<Vec<Directory>>) -> Seq<Seq<DirectoryView>> {
    manifests.map_values(|m: Vec<Directory>| directory_views(m@))
}

/// The manifests that the texts of index documents describe.
pub open spec fn described_manifests(files: Seq<Seq<char>>) -> Seq<Seq<DirectoryView>> {
    files.map_values(|f: Seq<char>| described_directories(f))
}

/// The paths of the subdirectories that fit exactly, over all places.
pub fn all_exact_paths(themes: &Vec<Theme>, manifests: &Vec<Vec<Directory>>, size: u16, scale: u16)
    -> (paths: Vec<String>)
    ensures
        texts(paths@) == all_exact_dirs(
            theme_views(themes@),
            manifest_views(manifests@),
            size,
            scale,
        ),
{
    let ghost places = theme_views(themes@);
    let ghost described = manifest_views(manifests@);
    let none: Vec<Directory> = Vec::new();
    let mut exact: Vec<String> = Vec::new();
    let mut i: usize = 0;
    proof {
        assert(directory_views(none@) =~= Seq::<DirectoryView>::empty());
        assert(places.take(0) =~= Seq::<ThemeView>::empty());
        assert(texts(exact@) =~= Seq::<Seq<char>>::empty());
    }
    while i < themes.len()
        invariant
            i <= themes.len(),
            places == theme_views(themes@),
            described == manifest_views(manifests@),
            directory_views(none@) == Seq::<DirectoryView>::empty(),
            texts(exact@) == all_exact_dirs(places.take(i as int), described, size, scale),
        decreases themes.len() - i,
    {
        proof {
            assert(places.take(i + 1).drop_last() =~= places.take(i as int));
            assert(places.take(i + 1).last() == themes[i as int]@);
        }
        let dirs = if i < manifests.len() {
            &manifests[i]
        } else {
            &none
        };
        let ghost earlier = texts(exact@);
        let mut more = themes[i].exact_paths(dirs, size, scale);
        let ghost added = texts(more@);
        exact.append(&mut more);
        proof {
            assert(texts(exact@) =~= earlier + added);
        }
        i += 1;
    }
    proof {
        assert(places.take(i as int) =~= places);
    }
    exact
}

/// The paths of the subdirectories in closest order, over all places.
pub fn all_closest_paths(
    themes: &Vec<Theme>,
    manifests: &Vec<Vec<Directory>>,
    size: u16,
    size_scheme: SizeScheme,
    scale: u16,
) -> (paths: Vec<String>)
    ensures
        texts(paths@) == all_closest_dirs(
            theme_views(themes@),
            manifest_views(manifests@),
            size,
            scale,
            size_scheme,
        ),
{
    let ghost places = theme_views(themes@);
    let ghost described = manifest_views(manifests@);
    let none: Vec<Directory> = Vec::new();
    let mut closest: Vec<String> = Vec::new();
    let mut i: usize = 0;
    proof {
        assert(directory_views(none@) =~= Seq::<DirectoryView>::empty());
        assert(places.take(0) =~= Seq::<ThemeView>::empty());
        assert(texts(closest@) =~= Seq::<Seq<char>>::empty());
    }
    while i < themes.len()
        invariant
            i <= themes.len(),
            places == theme_views(themes@),
            described == manifest_views(manifests@),
            directory_views(none@) == Seq::<DirectoryView>::empty(),
            texts(closest@) == all_closest_dirs(
                places.take(i as int),
                described,
                size,
                scale,
                size_scheme,
            ),
        decreases themes.len() - i,
    {
        proof {
            assert(places.take(i + 1).drop_last() =~= places.take(i as int));
            assert(places.take(i + 1).last() == themes[i as int]@);
        }
        let dirs = if i < manifests.len() {
            &manifests[i]
        } else {
            &none
        };
        let ghost earlier = texts(closest@);
        let mut more = themes[i].closest_paths(dirs, size, size_scheme, scale);
        let ghost added = texts(more@);
        closest.append(&mut more);
        proof {
            assert(texts(closest@) =~= earlier + added);
        }
        i += 1;
    }
    proof {
        assert(places.take(i as int) =~= places);
    }
    closest
}

/// Looks the icon `name` up over the places of a theme, given in the order
/// in which they are tried, each with the subdirectories of its manifest at
/// the same position in `manifests`. A subdirectory that fits `size` at
/// `scale` exactly wins in whichever place it lies; the closest order is
/// tried only where no place has such an icon.
pub fn resolve_in(
    themes: &Vec<Theme>,
    manifests: &Vec<Vec<Directory>>,
    name: &str,
    size: u16,
    size_scheme: SizeScheme,
    scale: u16,
    force_svg: bool,
    present: &Vec<String>,
) -> (icon: Option<String>)
    ensures
        path_text(icon) == resolved(
            theme_views(themes@),
            manifest_views(manifests@),
            texts(present@),
            name@,
            size,
            scale,
            size_scheme,
            force_svg,
        ),
{
    let exact = all_exact_paths(themes, manifests, size, scale);
    match first_icon_in(name, &exact, force_svg, present) {
        Some(icon) => Some(icon),
        None => {
            let closest = all_closest_paths(themes, manifests, size, size_scheme, scale);
            first_icon_in(name, &closest, force_svg, present)
        },
    }
}

/// The files that a lookup over all places of a theme may ask for: those of
/// the exact pass, then those of the closest pass.
pub open spec fn resolve_probes(
    themes: Seq<ThemeView>,
    manifests: Seq<Seq<DirectoryView>>,
    name: Seq<char>,
    size: u16,
    scale: u16,
    scheme: SizeScheme,
    force_svg: bool,
) -> Seq<Seq<char>> {
    probes(
        name,
        all_exact_dirs(themes, manifests, size, scale) + all_closest_dirs(
            themes,
            manifests,
            size,
            scale,
            scheme,
        ),
        force_svg,
    )
}

/// Reads the subdirectories that the index document of each place
/// describes. Texts beyond the last place are not read.
pub fn read_manifests(themes: &Vec<Theme>, files: &Vec<String>) -> (manifests: Vec<Vec<Directory>>)
    ensures
        manifests.len() <= themes.len(),
        forall|j: int|
            0 <= j < themes.len() ==> manifest_at(manifest_views(manifests@), j) == manifest_at(
                described_manifests(texts(files@)),
                j,
            ),
{
    let mut manifests: Vec<Vec<Directory>> = Vec::new();
    let mut i: usize = 0;
    proof {
        assert(manifest_views(manifests@) =~= described_manifests(texts(files@).take(0)));
    }
    while i < files.len() && i < themes.len()
        invariant
            i <= files.len(),
            i <= themes.len(),
            manifests.len() == i,
            manifest_views(manifests@) == described_manifests(texts(files@).take(i as int)),
        decreases files.len() - i,
    {
        let ghost earlier = manifest_views(manifests@);
        let dirs = themes[i].get_all_directories(files[i].as_str());
        manifests.push(dirs);
        proof {
            assert(manifest_views(manifests@) =~= earlier.push(directory_views(dirs@)));
            assert(described_manifests(texts(files@).take(i + 1)) =~= described_manifests(
                texts(files@).take(i as int),
            ).push(described_directories(files[i as int]@)));
        }
        i += 1;
    }
    proof {
        let short = manifest_views(manifests@);
        let long = described_manifests(texts(files@));
        assert forall|j: int| 0 <= j < themes.len() implies manifest_at(short, j) == manifest_at(
            long,
            j,
        ) by {
            if j < files.len() {
                assert(short[j] == described_manifests(texts(files@).take(i as int))[j]);
            }
        }
    }
    manifests
}

/// Lists the files that a lookup over the places of a theme may ask for.
/// A caller that knows which of them exist knows enough for [`resolve`].
pub fn files_to_resolve(
    themes: &Vec<Theme>,
    files: &Vec<String>,
    name: &str,
    size: u16,
    size_scheme: SizeScheme,
    scale: u16,
    force_svg: bool,
) -> (probed: Vec<String>)
    ensures
        texts(probed@) == resolve_probes(
            theme_views(themes@),
            described_manifests(texts(files@)),
            name@,
            size,
            scale,
            size_scheme,
            force_svg,
        ),
{
    let manifests = read_manifests(themes, files);
    let mut paths = all_exact_paths(themes, &manifests, size, scale);
    let mut closest = all_closest_paths(themes, &manifests, size, size_scheme, scale);
    let ghost exact = texts(paths@);
    let ghost rest = texts(closest@);
    paths.append(&mut closest);
    proof {
        assert(texts(paths@) =~= exact + rest);
        let places = theme_views(themes@);
        lemma_only_used_manifests(
            places,
            places.len() as int,
            manifest_views(manifests@),
            described_manifests(texts(files@)),
            size,
            scale,
            size_scheme,
        );
        assert(places.take(places.len() as int) =~= places);
    }
    files_to_probe(name, &paths, force_svg)
}

/// Looks the icon `name` up over the places of a theme. `files` holds the
/// text of the index document of each place, at the same position; a place
/// without a text, or with one that does not parse, has no subdirectories.
pub fn resolve(
    themes: &Vec<Theme>,
    files: &Vec<String>,
    name: &str,
    size: u16,
    size_scheme: SizeScheme,
    scale: u16,
    force_svg: bool,
    present: &Vec<String>,
) -> (icon: Option<String>)
    ensures
        path_text(icon) == resolved(
            theme_views(themes@),
            described_manifests(texts(files@)),
            texts(present@),
            name@,
            size,
            scale,
            size_scheme,
            force_svg,
        ),
{
    let manifests = read_manifests(themes, files);
    let icon = resolve_in(themes, &manifests, name, size, size_scheme, scale, force_svg, present);
    proof {
        let places = theme_views(themes@);
        lemma_only_used_manifests(
            places,
            places.len() as int,
            manifest_views(manifests@),
            described_manifests(texts(files@)),
            size,
            scale,
            size_scheme,
        );
        assert(places.take(places.len() as int) =~= places);
    }
    icon
}

/// A lookup reads only the manifests at the positions of the places.
proof fn lemma_only_used_manifests(
    themes: Seq<ThemeView>,
    n: int,
    one: Seq<Seq<DirectoryView>>,
    other: Seq<Seq<DirectoryView>>,
    size: u16,
    scale: u16,
    scheme: SizeScheme,
)
    requires
        0 <= n <= themes.len(),
        forall|j: int| 0 <= j < themes.len() ==> manifest_at(one, j) == manifest_at(other, j),
    ensures
        all_exact_dirs(themes.take(n), one, size, scale) == all_exact_dirs(
            themes.take(n),
            other,
            size,
            scale,
        ),
        all_closest_dirs(themes.take(n), one, size, scale, scheme) == all_closest_dirs(
            themes.take(n),
            other,
            size,
            scale,
            scheme,
        ),
    decreases n,
{
    if n > 0 {
        lemma_only_used_manifests(themes, n - 1, one, other, size, scale, scheme);
        assert(themes.take(n).drop_last() =~= themes.take(n - 1));
        assert(manifest_at(one, n - 1) == manifest_at(other, n - 1));
    }
}

} // verus!
