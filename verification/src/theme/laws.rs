//! What holds of every lookup and of every catalog.
use vstd::prelude::*;
use crate::SizeScheme;
use crate::theme::ThemeView;
use crate::theme::built_icon_path;
use crate::theme::catalog::RootListing;
use crate::theme::catalog::RootEntryView;
use crate::theme::catalog::cataloged;
use crate::theme::catalog::first_indexed;
use crate::theme::catalog::found;
use crate::theme::catalog::index_in;
use crate::theme::catalog::indexed_as;
use crate::theme::catalog::lemma_first_where_exists;
use crate::theme::catalog::listed;
use crate::theme::catalog::located;
use crate::theme::catalog::named_dir;
use crate::theme::catalog::placed;
use crate::theme::closest::candidates;
use crate::theme::closest::closest_order;
use crate::theme::closest::lemma_order_in_range;
use crate::theme::closest::lemma_ranking_total;
use crate::theme::closest::ranking;
use crate::theme::closest::sorts_before;
use crate::theme::closest::tried_first;
use crate::theme::closest_dirs;
use crate::theme::directories::DirectoryType;
use crate::theme::directories::DirectoryView;
use crate::theme::document::no_entries;
use crate::theme::exact_dirs;
use crate::theme::first_icon;
use crate::theme::icon_file;
use crate::theme::icon_in;
use crate::theme::lookup::all_exact_dirs;
use crate::theme::parse::decoded_directories;
use crate::theme::parse::decoded_directory;
use crate::theme::parse::listed_names;
use crate::theme::paths::SizeBucketView;
use crate::theme::paths::base_path_candidates;
use crate::theme::paths::generated_entries;
use crate::theme::paths::joined;
use crate::theme::paths::names_of;
use crate::theme::paths::synthesized;
use crate::theme::paths::with_sizes;
use crate::theme::text::decimal_digits;
use crate::theme::text::lemma_split_extends;
use crate::theme::text::lemma_written_number_is_read_back;
use crate::theme::text::split_at_each;
use crate::theme::lookup::resolve_probes;
use crate::theme::lookup::resolved;
use crate::theme::probes;
use crate::theme::probes_in;
use crate::theme::probes_of;
use crate::theme::text::join_path;

verus! {

/// The first icon of two lists of directories, one after the other, is that
/// of the first list where it has one, else that of the second.
pub proof fn lemma_first_icon_of_both(
    present: Seq<Seq<char>>,
    name: Seq<char>,
    first: Seq<Seq<char>>,
    second: Seq<Seq<char>>,
    force_svg: bool,
)
    ensures
        first_icon(present, name, first + second, force_svg) == match first_icon(
            present,
            name,
            first,
            force_svg,
        ) {
            Some(icon) => Some(icon),
            None => first_icon(present, name, second, force_svg),
        },
    decreases first.len(),
{
    if first.len() == 0 {
        assert(first + second =~= second);
    } else {
        assert((first + second).drop_first() =~= first.drop_first() + second);
        assert((first + second)[0] == first[0]);
        lemma_first_icon_of_both(present, name, first.drop_first(), second, force_svg);
    }
}

/// Directories that hold no icon give none.
pub proof fn lemma_first_icon_of_none(
    present: Seq<Seq<char>>,
    name: Seq<char>,
    dirs: Seq<Seq<char>>,
    force_svg: bool,
)
    requires
        forall|k: int|
            0 <= k < dirs.len() ==> built_icon_path(present, name, #[trigger] dirs[k], force_svg)
                is None,
    ensures
        first_icon(present, name, dirs, force_svg) is None,
    decreases dirs.len(),
{
    if dirs.len() > 0 {
        assert forall|k: int| 0 <= k < dirs.drop_first().len() implies built_icon_path(
            present,
            name,
            #[trigger] dirs.drop_first()[k],
            force_svg,
        ) is None by {
            assert(dirs.drop_first()[k] == dirs[k + 1]);
        }
        lemma_first_icon_of_none(present, name, dirs.drop_first(), force_svg);
    }
}

/// The files that a lookup in two lists of directories may ask for are
/// those of the first list and then those of the second.
pub proof fn lemma_probes_of_both(
    name: Seq<char>,
    first: Seq<Seq<char>>,
    second: Seq<Seq<char>>,
    force_svg: bool,
)
    ensures
        probes(name, first + second, force_svg) == probes(name, first, force_svg) + probes(
            name,
            second,
            force_svg,
        ),
    decreases second.len(),
{
    if second.len() == 0 {
        assert(first + second =~= first);
        assert(probes(name, first, force_svg) + probes(name, second, force_svg) =~= probes(
            name,
            first,
            force_svg,
        ));
    } else {
        assert((first + second).drop_last() =~= first + second.drop_last());
        assert((first + second).last() == second.last());
        lemma_probes_of_both(name, first, second.drop_last(), force_svg);
        assert(probes(name, first + second, force_svg) =~= probes(name, first, force_svg) + probes(
            name,
            second,
            force_svg,
        ));
    }
}

/// A lookup reads nothing but the files it may ask for: two sets of present
/// files that agree on those give the same icon.
pub proof fn lemma_lookup_reads_only_probes(
    one: Seq<Seq<char>>,
    other: Seq<Seq<char>>,
    name: Seq<char>,
    dirs: Seq<Seq<char>>,
    force_svg: bool,
)
    requires
        forall|file: Seq<char>| #[trigger]
            probes(name, dirs, force_svg).contains(file) ==> (one.contains(file)
                <==> other.contains(file)),
    ensures
        first_icon(one, name, dirs, force_svg) == first_icon(other, name, dirs, force_svg),
    decreases dirs.len(),
{
    if dirs.len() > 0 {
        let front = dirs.drop_last();
        let last = dirs.last();
        let asked = probes(name, dirs, force_svg);
        let before = probes(name, front, force_svg);
        let here = probes_in(name, last, force_svg);
        assert(dirs =~= front + seq![last]);
        assert forall|file: Seq<char>| #[trigger] before.contains(file) implies (one.contains(file)
            <==> other.contains(file)) by {
            let at = choose|at: int| 0 <= at < before.len() && before[at] == file;
            assert(asked =~= before + probes_in(name, last, force_svg));
            assert(asked[at] == file);
            assert(asked.contains(file));
        }
        lemma_lookup_reads_only_probes(one, other, name, front, force_svg);
        lemma_first_icon_of_both(one, name, front, seq![last], force_svg);
        lemma_first_icon_of_both(other, name, front, seq![last], force_svg);
        assert(seq![last].drop_first() =~= Seq::<Seq<char>>::empty());
        assert(asked =~= before + here);
        assert forall|k: int| 0 <= k < here.len() implies (one.contains(#[trigger] here[k])
            <==> other.contains(here[k])) by {
            assert(asked[before.len() + k] == here[k]);
            assert(asked.contains(here[k]));
        }
        if force_svg {
            assert(here[0] == icon_file(last, name, ".svg"@));
        } else {
            assert(here[0] == icon_file(last, name, ".png"@));
            assert(here[1] == icon_file(last, name, ".svg"@));
            assert(here[2] == icon_file(last, name, ".xmp"@));
        }
        assert(built_icon_path(one, name, last, force_svg) == built_icon_path(
            other,
            name,
            last,
            force_svg,
        ));
        let nothing = Seq::<Seq<char>>::empty();
        assert(first_icon(one, name, nothing, force_svg) is None);
        assert(first_icon(other, name, nothing, force_svg) is None);
        assert(seq![last][0] == last);
        assert(first_icon(one, name, seq![last], force_svg) == built_icon_path(
            one,
            name,
            last,
            force_svg,
        ));
        assert(first_icon(other, name, seq![last], force_svg) == built_icon_path(
            other,
            name,
            last,
            force_svg,
        ));
    }
}

/// Whether a file exists matters to a lookup in a theme directory, or over
/// all places of a theme, only where the file is one that the lookup may
/// ask for.
pub proof fn lemma_probes_suffice(
    root: Seq<char>,
    dirs: Seq<DirectoryView>,
    themes: Seq<ThemeView>,
    manifests: Seq<Seq<DirectoryView>>,
    one: Seq<Seq<char>>,
    other: Seq<Seq<char>>,
    name: Seq<char>,
    size: u16,
    scale: u16,
    scheme: SizeScheme,
    force_svg: bool,
)
    ensures
        (forall|file: Seq<char>| #[trigger]
            probes_of(root, dirs, name, size, scale, scheme, force_svg).contains(file) ==> (
            one.contains(file) <==> other.contains(file))) ==> icon_in(
            root,
            dirs,
            one,
            name,
            size,
            scale,
            scheme,
            force_svg,
        ) == icon_in(root, dirs, other, name, size, scale, scheme, force_svg),
        (forall|file: Seq<char>| #[trigger]
            resolve_probes(themes, manifests, name, size, scale, scheme, force_svg).contains(file)
                ==> (one.contains(file) <==> other.contains(file))) ==> resolved(
            themes,
            manifests,
            one,
            name,
            size,
            scale,
            scheme,
            force_svg,
        ) == resolved(themes, manifests, other, name, size, scale, scheme, force_svg),
{
    let exact = exact_dirs(root, dirs, size, scale);
    let closest = closest_dirs(root, dirs, size, scale, scheme);
    if forall|file: Seq<char>| #[trigger]
        probes_of(root, dirs, name, size, scale, scheme, force_svg).contains(file) ==> (
        one.contains(file) <==> other.contains(file)) {
        assert forall|file: Seq<char>| #[trigger]
            probes(name, exact + closest, force_svg).contains(file) implies (one.contains(file)
            <==> other.contains(file)) by {
            assert(probes_of(root, dirs, name, size, scale, scheme, force_svg).contains(file));
        }
        lemma_passes_agree(exact, closest, one, other, name, force_svg);
    }
    let all_exact = all_exact_dirs(themes, manifests, size, scale);
    let all_closest = crate::theme::lookup::all_closest_dirs(themes, manifests, size, scale, scheme);
    if forall|file: Seq<char>| #[trigger]
        resolve_probes(themes, manifests, name, size, scale, scheme, force_svg).contains(file) ==> (
        one.contains(file) <==> other.contains(file)) {
        assert forall|file: Seq<char>| #[trigger]
            probes(name, all_exact + all_closest, force_svg).contains(file) implies (one.contains(
            file,
        ) <==> other.contains(file)) by {
            assert(resolve_probes(themes, manifests, name, size, scale, scheme, force_svg).contains(
                file,
            ));
        }
        lemma_passes_agree(all_exact, all_closest, one, other, name, force_svg);
    }
}

/// Two sets of present files that agree on what both passes may ask for
/// give the same icon in each pass.
proof fn lemma_passes_agree(
    exact: Seq<Seq<char>>,
    closest: Seq<Seq<char>>,
    one: Seq<Seq<char>>,
    other: Seq<Seq<char>>,
    name: Seq<char>,
    force_svg: bool,
)
    requires
        forall|file: Seq<char>| #[trigger]
            probes(name, exact + closest, force_svg).contains(file) ==> (one.contains(file)
                <==> other.contains(file)),
    ensures
        first_icon(one, name, exact, force_svg) == first_icon(other, name, exact, force_svg),
        first_icon(one, name, closest, force_svg) == first_icon(other, name, closest, force_svg),
{
    lemma_probes_of_both(name, exact, closest, force_svg);
    let all = probes(name, exact + closest, force_svg);
    let first = probes(name, exact, force_svg);
    let second = probes(name, closest, force_svg);
    assert(all =~= first + second);
    assert forall|file: Seq<char>| #[trigger] first.contains(file) implies (one.contains(file)
        <==> other.contains(file)) by {
        let at = choose|at: int| 0 <= at < first.len() && first[at] == file;
        assert(all[at] == file);
        assert(all.contains(file));
    }
    assert forall|file: Seq<char>| #[trigger] second.contains(file) implies (one.contains(file)
        <==> other.contains(file)) by {
        let at = choose|at: int| 0 <= at < second.len() && second[at] == file;
        assert(all[first.len() + at] == file);
        assert(all.contains(file));
    }
    lemma_lookup_reads_only_probes(one, other, name, exact, force_svg);
    lemma_lookup_reads_only_probes(one, other, name, closest, force_svg);
}

/// A fixed subdirectory whose size and scale are the requested ones fits
/// exactly, and its path is among the directories of the exact pass.
pub proof fn lemma_fixed_entry_fits(
    root: Seq<char>,
    dirs: Seq<DirectoryView>,
    i: int,
    size: u16,
    scale: u16,
)
    requires
        0 <= i < dirs.len(),
        dirs[i].type_ is Fixed,
        dirs[i].size == size,
        dirs[i].scale == scale,
    ensures
        dirs[i].fits(size, scale),
        exact_dirs(root, dirs, size, scale).contains(join_path(root, dirs[i].name)),
{
    let fits = |d: DirectoryView| d.fits(size, scale);
    let place = |d: DirectoryView| join_path(root, d.name);
    dirs.lemma_filter_contains(fits, i);
    let kept = dirs.filter(fits);
    let at = choose|at: int| 0 <= at < kept.len() && kept[at] == dirs[i];
    assert(kept.map_values(place)[at] == join_path(root, dirs[i].name));
}

/// Where a fixed subdirectory of the requested size and scale holds the
/// icon, the lookup in its theme directory yields an icon of the exact
/// pass and never reaches the closest pass. The icon is the one of that
/// subdirectory unless a subdirectory earlier in the index document fits
/// exactly too and holds the icon.
pub proof fn lemma_exact_fit_wins(
    root: Seq<char>,
    dirs: Seq<DirectoryView>,
    i: int,
    present: Seq<Seq<char>>,
    name: Seq<char>,
    size: u16,
    scale: u16,
    scheme: SizeScheme,
    force_svg: bool,
)
    requires
        0 <= i < dirs.len(),
        dirs[i].type_ is Fixed,
        dirs[i].size == size,
        dirs[i].scale == scale,
        built_icon_path(present, name, join_path(root, dirs[i].name), force_svg) is Some,
    ensures
        icon_in(root, dirs, present, name, size, scale, scheme, force_svg) is Some,
        icon_in(root, dirs, present, name, size, scale, scheme, force_svg) == first_icon(
            present,
            name,
            exact_dirs(root, dirs, size, scale),
            force_svg,
        ),
        (forall|j: int|
            0 <= j < i && (#[trigger] dirs[j]).fits(size, scale) ==> built_icon_path(
                present,
                name,
                join_path(root, dirs[j].name),
                force_svg,
            ) is None) ==> icon_in(root, dirs, present, name, size, scale, scheme, force_svg)
            == built_icon_path(present, name, join_path(root, dirs[i].name), force_svg),
{
    let fits = |d: DirectoryView| d.fits(size, scale);
    let place = |d: DirectoryView| join_path(root, d.name);
    let head = dirs.take(i);
    let tail = dirs.skip(i + 1);
    let own = join_path(root, dirs[i].name);
    assert(dirs =~= head.push(dirs[i]) + tail);
    Seq::filter_distributes_over_add(head.push(dirs[i]), tail, fits);
    head.lemma_filter_push(dirs[i], fits);
    let before = head.filter(fits).map_values(place);
    let after = tail.filter(fits).map_values(place);
    assert(exact_dirs(root, dirs, size, scale) =~= before + (seq![own] + after));
    lemma_first_icon_of_both(present, name, before, seq![own] + after, force_svg);
    assert((seq![own] + after).drop_first() =~= after);
    assert((seq![own] + after)[0] == own);
    if forall|j: int|
        0 <= j < i && (#[trigger] dirs[j]).fits(size, scale) ==> built_icon_path(
            present,
            name,
            join_path(root, dirs[j].name),
            force_svg,
        ) is None {
        assert forall|k: int| 0 <= k < before.len() implies built_icon_path(
            present,
            name,
            #[trigger] before[k],
            force_svg,
        ) is None by {
            let d = head.filter(fits)[k];
            head.lemma_filter_pred(fits, k);
            assert(head.filter(fits).contains(d));
            head.lemma_filter_contains_rev(fits, d);
            let j = choose|j: int| 0 <= j < head.len() && head[j] == d;
            assert(dirs[j] == d);
        }
        lemma_first_icon_of_none(present, name, before, force_svg);
    }
}

/// Over all places of a theme, an icon of the exact pass goes before every
/// icon of the closest pass: where some place has a subdirectory that fits
/// exactly and holds the icon, the lookup yields the first such icon.
pub proof fn lemma_exact_pass_goes_first(
    themes: Seq<ThemeView>,
    manifests: Seq<Seq<DirectoryView>>,
    present: Seq<Seq<char>>,
    name: Seq<char>,
    size: u16,
    scale: u16,
    scheme: SizeScheme,
    force_svg: bool,
)
    requires
        first_icon(present, name, all_exact_dirs(themes, manifests, size, scale), force_svg)
            is Some,
    ensures
        resolved(themes, manifests, present, name, size, scale, scheme, force_svg) == first_icon(
            present,
            name,
            all_exact_dirs(themes, manifests, size, scale),
            force_svg,
        ),
{
}

/// The order of the formats. Without `force_svg` the `.png` file is picked
/// where it is present, else the `.svg` file where that is present, and the
/// `.xmp` file only where neither of them is. With `force_svg` the `.svg`
/// file is picked where it is present, and nothing else ever.
pub proof fn lemma_format_priority(present: Seq<Seq<char>>, name: Seq<char>, dir: Seq<char>)
    ensures
        present.contains(icon_file(dir, name, ".png"@)) ==> built_icon_path(
            present,
            name,
            dir,
            false,
        ) == Some(icon_file(dir, name, ".png"@)),
        !present.contains(icon_file(dir, name, ".png"@)) && present.contains(
            icon_file(dir, name, ".svg"@),
        ) ==> built_icon_path(present, name, dir, false) == Some(icon_file(dir, name, ".svg"@)),
        built_icon_path(present, name, dir, false) == Some(icon_file(dir, name, ".xmp"@))
            ==> !present.contains(icon_file(dir, name, ".png"@)) && !present.contains(
            icon_file(dir, name, ".svg"@),
        ),
        built_icon_path(present, name, dir, false) is None <==> !present.contains(
            icon_file(dir, name, ".png"@),
        ) && !present.contains(icon_file(dir, name, ".svg"@)) && !present.contains(
            icon_file(dir, name, ".xmp"@),
        ),
        built_icon_path(present, name, dir, true) == if present.contains(
            icon_file(dir, name, ".svg"@),
        ) {
            Some(icon_file(dir, name, ".svg"@))
        } else {
            None
        },
{
    reveal_strlit(".png");
    reveal_strlit(".svg");
    reveal_strlit(".xmp");
    let png = icon_file(dir, name, ".png"@);
    let svg = icon_file(dir, name, ".svg"@);
    let xmp = icon_file(dir, name, ".xmp"@);
    let last = (dir.len() + name.len() + 4) as int;
    assert(png[last] == 'g');
    assert(svg[last] == 'g');
    assert(xmp[last] == 'p');
    assert(xmp != png);
    assert(xmp != svg);
}

/// How the schemes rank two subdirectories at equal distance on either side
/// of the request: `LargerClosest` tries the larger one first,
/// `SmallerClosest` the smaller one, and `Closest` neither before the other.
pub proof fn lemma_schemes_break_ties(distance: int)
    requires
        distance > 0,
    ensures
        sorts_before(SizeScheme::LargerClosest, distance, -distance),
        !sorts_before(SizeScheme::LargerClosest, -distance, distance),
        sorts_before(SizeScheme::SmallerClosest, -distance, distance),
        !sorts_before(SizeScheme::SmallerClosest, distance, -distance),
        !sorts_before(SizeScheme::Closest, distance, -distance),
        !sorts_before(SizeScheme::Closest, -distance, distance),
{
}

/// The closest order is sorted: of two positions in it, the earlier one
/// holds a subdirectory that is tried first. No subdirectory occurs twice.
pub proof fn lemma_closest_order_sorted(
    dirs: Seq<DirectoryView>,
    size: u16,
    scale: u16,
    scheme: SizeScheme,
)
    ensures
        forall|a: int, b: int|
            #![trigger closest_order(dirs, size, scale, scheme)[a], closest_order(dirs, size, scale, scheme)[b]]
            0 <= a < b < closest_order(dirs, size, scale, scheme).len() ==> tried_first(
                dirs,
                size,
                scale,
                scheme,
                closest_order(dirs, size, scale, scheme)[a],
                closest_order(dirs, size, scale, scheme)[b],
            ) && closest_order(dirs, size, scale, scheme)[a] != closest_order(
                dirs,
                size,
                scale,
                scheme,
            )[b],
{
    let order = closest_order(dirs, size, scale, scheme);
    let leq = ranking(dirs, size, scale, scheme);
    lemma_ranking_total(dirs, size, scale, scheme);
    candidates(dirs, scale).lemma_sort_by_ensures(leq);
    lemma_candidates_distinct(dirs, scale, dirs.len() as int);
    assert forall|a: int, b: int|
        #![trigger order[a], order[b]]
        0 <= a < b < order.len() implies tried_first(dirs, size, scale, scheme, order[a], order[b])
        && order[a] != order[b] by {
        assert(leq(order[a], order[b]));
        if order[a] == order[b] {
            broadcast use vstd::seq_lib::group_to_multiset_ensures;

            let x = order[a];
            assert(order.to_multiset().count(x) == candidates(dirs, scale).to_multiset().count(x));
            lemma_twice_counts_two(order, a, b);
            lemma_once_counts_one(candidates(dirs, scale), x);
        }
    }
}

/// A value at two positions of a sequence occurs at least twice in it.
proof fn lemma_twice_counts_two(s: Seq<int>, a: int, b: int)
    requires
        0 <= a < b < s.len(),
        s[a] == s[b],
    ensures
        s.to_multiset().count(s[a]) >= 2,
    decreases s.len(),
{
    broadcast use vstd::seq_lib::group_to_multiset_ensures;

    let x = s[a];
    let shorter = s.remove(b);
    vstd::seq_lib::to_multiset_remove(s, b);
    assert(shorter[a] == x);
    assert(shorter.to_multiset().count(x) >= 1);
    assert(s.to_multiset() =~= shorter.to_multiset().insert(x));
}

/// A value of a sequence of distinct values occurs at most once in it.
proof fn lemma_once_counts_one(s: Seq<int>, x: int)
    requires
        s.no_duplicates(),
    ensures
        s.to_multiset().count(x) <= 1,
{
    broadcast use vstd::seq_lib::group_to_multiset_ensures;

    if s.to_multiset().count(x) >= 2 {
        s.lemma_multiset_has_no_duplicates();
    }
}

/// The candidates below a limit are distinct positions.
proof fn lemma_candidates_distinct(dirs: Seq<DirectoryView>, scale: u16, limit: int)
    requires
        0 <= limit,
    ensures
        crate::theme::closest::candidates_below(dirs, scale, limit).no_duplicates(),
        forall|k: int|
            0 <= k < crate::theme::closest::candidates_below(dirs, scale, limit).len() ==> 0 <= (
            #[trigger] crate::theme::closest::candidates_below(dirs, scale, limit)[k]) < limit,
    decreases limit,
{
    reveal(Seq::filter);
    let all = Seq::new(limit as nat, |i: int| i);
    let takes_part = |i: int| dirs[i].is_candidate(scale);
    if limit > 0 {
        lemma_candidates_distinct(dirs, scale, limit - 1);
        assert(all.drop_last() =~= Seq::new((limit - 1) as nat, |i: int| i));
        assert(all.last() == limit - 1);
    } else {
        assert(all.filter(takes_part) =~= Seq::<int>::empty());
    }
}

/// A fixed subdirectory of another scale than the requested one is never
/// among the directories of the closest pass, however near its size is;
/// every other subdirectory is among them.
pub proof fn lemma_fixed_needs_its_scale(
    dirs: Seq<DirectoryView>,
    size: u16,
    scale: u16,
    scheme: SizeScheme,
    i: int,
)
    requires
        0 <= i < dirs.len(),
    ensures
        closest_order(dirs, size, scale, scheme).contains(i) <==> !(dirs[i].type_ is Fixed
            && dirs[i].scale != scale),
{
    lemma_order_in_range(dirs, size, scale, scheme);
    let order = closest_order(dirs, size, scale, scheme);
    if order.contains(i) {
        let k = choose|k: int| 0 <= k < order.len() && order[k] == i;
        assert(dirs[order[k]].is_candidate(scale));
    }
}

/// Of two candidates at equal distance on either side of the request,
/// `LargerClosest` places the larger one earlier in the closest order and
/// `SmallerClosest` the smaller one, while `Closest` keeps them in the
/// order of the index document.
pub proof fn lemma_tie_break_in_order(
    dirs: Seq<DirectoryView>,
    size: u16,
    scale: u16,
    scheme: SizeScheme,
    smaller: int,
    larger: int,
)
    requires
        0 <= smaller < dirs.len(),
        0 <= larger < dirs.len(),
        dirs[smaller].is_candidate(scale),
        dirs[larger].is_candidate(scale),
        dirs[larger].distance(size, scale) > 0,
        dirs[smaller].distance(size, scale) == -dirs[larger].distance(size, scale),
    ensures
        closest_order(dirs, size, scale, scheme).contains(smaller),
        closest_order(dirs, size, scale, scheme).contains(larger),
        closest_order(dirs, size, scale, scheme).index_of(larger) < closest_order(
            dirs,
            size,
            scale,
            scheme,
        ).index_of(smaller) <==> (scheme == SizeScheme::LargerClosest || (scheme
            == SizeScheme::Closest && larger < smaller)),
{
    let order = closest_order(dirs, size, scale, scheme);
    lemma_order_in_range(dirs, size, scale, scheme);
    lemma_closest_order_sorted(dirs, size, scale, scheme);
    assert(order.contains(smaller));
    assert(order.contains(larger));
    let a = choose|i: int| 0 <= i < order.len() && order[i] == smaller;
    let b = choose|i: int| 0 <= i < order.len() && order[i] == larger;
    assert(a == order.index_of(smaller));
    assert(b == order.index_of(larger));
    if a < b {
        assert(tried_first(dirs, size, scale, scheme, order[a], order[b]));
    } else if b < a {
        assert(tried_first(dirs, size, scale, scheme, order[b], order[a]));
    }
}

/// Every entry of a search root is among the entries found.
pub proof fn lemma_found_holds_listed(roots: Seq<RootListing>, r: int, entry: RootEntryView)
    requires
        0 <= r < roots.len(),
        listed(roots[r]).contains(entry),
    ensures
        found(roots).contains(entry),
    decreases roots.len(),
{
    let at = choose|at: int| 0 <= at < listed(roots[r]).len() && listed(roots[r])[at] == entry;
    if r == roots.len() - 1 {
        assert(found(roots)[found(roots.drop_last()).len() + at] == entry);
    } else {
        lemma_found_holds_listed(roots.drop_last(), r, entry);
        let before = choose|before: int|
            0 <= before < found(roots.drop_last()).len() && found(roots.drop_last())[before]
                == entry;
        assert(found(roots)[before] == entry);
    }
}

/// Where some directory called `name` has an index document, the catalog
/// holds the name, and every directory of that name found under any root is
/// one of its places, with or without an index document of its own. All its
/// places use one index document: the first one found for the name.
pub proof fn lemma_bare_directory_joins(flat: Seq<RootEntryView>, name: Seq<char>, i: int, j: int)
    requires
        0 <= i < flat.len(),
        0 <= j < flat.len(),
        flat[i].name == name && flat[i].is_dir && flat[i].has_index,
        flat[j].name == name && flat[j].is_dir,
    ensures
        0 <= first_indexed(flat, name) <= i,
        indexed_as(name)(flat[first_indexed(flat, name)]),
        cataloged(flat, name) == Some(located(flat, name)),
        located(flat, name).contains(
            ThemeView {
                path: flat[j].path,
                index: index_in(flat[first_indexed(flat, name)].path),
            },
        ),
        forall|k: int|
            0 <= k < located(flat, name).len() ==> (#[trigger] located(flat, name)[k]).index
                == index_in(flat[first_indexed(flat, name)].path),
{
    lemma_first_where_exists(flat, indexed_as(name));
    let m = first_indexed(flat, name);
    if i < m {
        assert(!indexed_as(name)(flat[i]));
    }
    let keep = named_dir(name);
    let put = placed(index_in(flat[m].path));
    let turned = flat.skip(m) + flat.take(m);
    if j >= m {
        assert(turned[j - m] == flat[j]);
        turned.lemma_filter_contains(keep, j - m);
    } else {
        assert(turned[flat.len() - m + j] == flat[j]);
        turned.lemma_filter_contains(keep, flat.len() - m + j);
    }
    let kept = turned.filter(keep);
    let at = choose|at: int| 0 <= at < kept.len() && kept[at] == flat[j];
    assert(kept.map_values(put)[at] == put(flat[j]));
}

/// A theme that lies under one root as a bare directory, without an index
/// document, and under an earlier root with one, is in the catalog with
/// both places, and the bare one uses an index document found before it.
pub proof fn lemma_bare_directory_under_later_root(
    roots: Seq<RootListing>,
    name: Seq<char>,
    earlier: int,
    later: int,
    indexed: RootEntryView,
    bare: RootEntryView,
)
    requires
        0 <= earlier < later < roots.len(),
        listed(roots[earlier]).contains(indexed),
        listed(roots[later]).contains(bare),
        indexed.name == name && indexed.is_dir && indexed.has_index,
        bare.name == name && bare.is_dir && !bare.has_index,
    ensures
        cataloged(found(roots), name) == Some(located(found(roots), name)),
        located(found(roots), name).contains(
            ThemeView {
                path: bare.path,
                index: index_in(found(roots)[first_indexed(found(roots), name)].path),
            },
        ),
        indexed_as(name)(found(roots)[first_indexed(found(roots), name)]),
{
    let flat = found(roots);
    lemma_found_holds_listed(roots, earlier, indexed);
    lemma_found_holds_listed(roots, later, bare);
    let i = choose|i: int| 0 <= i < flat.len() && flat[i] == indexed;
    let j = choose|j: int| 0 <= j < flat.len() && flat[j] == bare;
    lemma_bare_directory_joins(flat, name, i, j);
}

/// The order of the search roots. Where the user's own directory exists it
/// is the first root, before every data directory. The data directories
/// that exist follow in the order in which they were given, and nothing
/// else is searched.
pub proof fn lemma_user_directory_is_searched_first(
    home: Seq<char>,
    data_dirs: Seq<Seq<char>>,
    present: Seq<Seq<char>>,
)
    ensures
        base_path_candidates(home, data_dirs).filter(|p: Seq<char>| present.contains(p)) == (
        if present.contains(join_path(home, ".icons"@)) {
            seq![join_path(home, ".icons"@)]
        } else {
            Seq::empty()
        }) + data_dirs.map_values(|d: Seq<char>| join_path(d, "icons"@)).filter(
            |p: Seq<char>| present.contains(p),
        ),
        present.contains(join_path(home, ".icons"@)) ==> base_path_candidates(
            home,
            data_dirs,
        ).filter(|p: Seq<char>| present.contains(p))[0] == join_path(home, ".icons"@),
{
    let exists = |p: Seq<char>| present.contains(p);
    let own = join_path(home, ".icons"@);
    let first = seq![own];
    let rest = data_dirs.map_values(|d: Seq<char>| join_path(d, "icons"@));
    let nothing = Seq::<Seq<char>>::empty();
    Seq::filter_distributes_over_add(first, rest, exists);
    reveal(Seq::filter);
    assert(nothing.filter(exists) =~= nothing);
    assert(first =~= nothing.push(own));
    nothing.lemma_filter_push(own, exists);
    if present.contains(own) {
        assert(first.filter(exists) =~= first);
        assert((first.filter(exists) + rest.filter(exists))[0] == own);
    } else {
        assert(first.filter(exists) =~= nothing);
    }
}

/// Names without a separator that were joined by it come apart again as
/// they were.
pub proof fn lemma_joined_names_split(names: Seq<Seq<char>>, separator: char)
    requires
        names.len() >= 1,
        forall|k: int, i: int|
            0 <= k < names.len() && 0 <= i < names[k].len() ==> (#[trigger] names[k][i])
                != separator,
    ensures
        split_at_each(joined(names, separator), separator) == names,
    decreases names.len(),
{
    let nothing = Seq::<char>::empty();
    if names.len() == 1 {
        lemma_split_extends(nothing, names[0], separator);
        assert(nothing + names[0] =~= names[0]);
        assert(split_at_each(nothing, separator) =~= seq![nothing]);
        assert(seq![nothing].drop_last().push(nothing + names[0]) =~= names);
    } else {
        let front = names.drop_last();
        assert forall|k: int, i: int| 0 <= k < front.len() && 0 <= i < front[k].len() implies (
        #[trigger] front[k][i]) != separator by {
            assert(front[k] == names[k]);
            assert(names[k][i] != separator);
        }
        lemma_joined_names_split(front, separator);
        let ended = joined(front, separator) + seq![separator];
        assert(ended.drop_last() =~= joined(front, separator));
        assert(ended.last() == separator);
        assert(split_at_each(ended, separator) == front.push(nothing));
        assert forall|i: int| 0 <= i < names.last().len() implies names.last()[i] != separator by {
            assert(names[names.len() - 1][i] != separator);
        }
        lemma_split_extends(ended, names.last(), separator);
        assert(front.push(nothing).drop_last().push(nothing + names.last()) =~= names);
    }
}

/// What the sizes that were set leave in a document that was empty: a
/// `Size` for each name, and nothing else. Where no name occurs twice, each
/// name has its own size there.
pub proof fn lemma_sizes_that_were_set(sized: Seq<(Seq<char>, u16)>)
    ensures
        forall|section: Seq<char>, key: Seq<char>| #[trigger]
            with_sizes(no_entries(), sized).contains_key((section, key)) <==> key == "Size"@
                && names_of(sized).contains(section),
        names_of(sized).no_duplicates() ==> forall|k: int|
            0 <= k < sized.len() ==> with_sizes(no_entries(), sized)[(
                (#[trigger] sized[k]).0,
                "Size"@,
            )] == decimal_digits(sized[k].1 as nat),
    decreases sized.len(),
{
    let names = names_of(sized);
    let entries = with_sizes(no_entries(), sized);
    if sized.len() == 0 {
        assert forall|section: Seq<char>, key: Seq<char>| #[trigger]
            entries.contains_key((section, key)) <==> key == "Size"@ && names.contains(
                section,
            ) by {}
    } else {
        let front = sized.drop_last();
        let last = sized.last();
        lemma_sizes_that_were_set(front);
        let before = with_sizes(no_entries(), front);
        assert(names_of(front) =~= names.drop_last());
        assert(names.last() == last.0);
        assert forall|section: Seq<char>, key: Seq<char>| #[trigger]
            entries.contains_key((section, key)) <==> key == "Size"@ && names.contains(
                section,
            ) by {
            if before.contains_key((section, key)) {
                let at = choose|at: int| 0 <= at < names_of(front).len() && names_of(front)[at]
                    == section;
                assert(names[at] == section);
            }
            if key == "Size"@ && names.contains(section) {
                let at = choose|at: int| 0 <= at < names.len() && names[at] == section;
                if at < front.len() {
                    assert(names_of(front)[at] == section);
                    assert(names_of(front).contains(section));
                }
            }
            if (section, key) == (last.0, "Size"@) {
                assert(names[names.len() - 1] == section);
            }
        }
        if names.no_duplicates() {
            assert(names_of(front).no_duplicates()) by {
                assert forall|a: int, b: int|
                    0 <= a < names_of(front).len() && 0 <= b < names_of(front).len() && a
                        != b implies names_of(front)[a] != names_of(front)[b] by {
                    assert(names[a] != names[b]);
                }
            }
            assert forall|k: int| 0 <= k < sized.len() implies entries[(
                (#[trigger] sized[k]).0,
                "Size"@,
            )] == decimal_digits(sized[k].1 as nat) by {
                if k < front.len() {
                    assert(front[k] == sized[k]);
                    assert(names[k] != names[names.len() - 1]);
                    assert(names[k] == sized[k].0);
                }
            }
        }
    }
}

/// A function that yields something for every item keeps them all.
pub proof fn lemma_filter_map_keeps_all<A, B>(s: Seq<A>, f: spec_fn(A) -> Option<B>, kept: Seq<B>)
    requires
        s.len() == kept.len(),
        forall|k: int| 0 <= k < s.len() ==> f(#[trigger] s[k]) == Some(kept[k]),
    ensures
        s.filter_map(f) == kept,
    decreases s.len(),
{
    if s.len() > 0 {
        lemma_filter_map_keeps_all(s.drop_last(), f, kept.drop_last());
        assert(f(s[s.len() - 1]) == Some(kept[kept.len() - 1]));
        assert(s.filter_map(f) =~= kept);
    } else {
        assert(s.filter_map(f) =~= kept);
    }
}

/// The subdirectory that a generated document describes for a directory
/// that was walked: fixed, at scale 1, of the nominal size of its bucket.
pub open spec fn synthesized_directory(entry: (Seq<char>, u16)) -> DirectoryView {
    DirectoryView { name: entry.0, size: entry.1, scale: 1, type_: DirectoryType::Fixed }
}

/// An index document that was made up for a listing describes exactly the
/// directories that were walked, in the order of the walk, each as a fixed
/// subdirectory at scale 1 of the nominal size of its bucket. This holds
/// where no directory was walked twice and no name holds a comma.
pub proof fn lemma_generated_index_describes_the_walk(root: Seq<char>, buckets: Seq<SizeBucketView>)
    requires
        names_of(synthesized(root, buckets)).no_duplicates(),
        forall|k: int, i: int|
            0 <= k < synthesized(root, buckets).len() && 0 <= i < names_of(
                synthesized(root, buckets),
            )[k].len() ==> (#[trigger] names_of(synthesized(root, buckets))[k][i]) != ',',
    ensures
        decoded_directories(generated_entries(root, buckets)) == synthesized(
            root,
            buckets,
        ).map_values(|e: (Seq<char>, u16)| synthesized_directory(e)),
{
    reveal_strlit("Size");
    reveal_strlit("Type");
    reveal_strlit("Scale");
    reveal_strlit("Directories");
    assert("Type"@[0] != "Size"@[0]);
    assert("Scale"@.len() != "Size"@.len());
    assert("Directories"@.len() != "Size"@.len());
    assert("Directories"@.len() != "Type"@.len());
    assert("Directories"@.len() != "Scale"@.len());
    let sized = synthesized(root, buckets);
    let names = names_of(sized);
    let sizes = with_sizes(no_entries(), sized);
    let list = ("Icon Theme"@, "Directories"@);
    let entries = generated_entries(root, buckets);
    let decode = |name: Seq<char>| decoded_directory(entries, name);
    let wanted = sized.map_values(|e: (Seq<char>, u16)| synthesized_directory(e));
    lemma_sizes_that_were_set(sized);
    assert(entries == sizes.insert(list, joined(names, ',')));
    assert(listed_names(entries) == split_at_each(joined(names, ','), ','));
    assert forall|section: Seq<char>|
        !(#[trigger] entries.contains_key((section, "Type"@))) && !entries.contains_key(
            (section, "Scale"@),
        ) by {
        assert(!sizes.contains_key((section, "Type"@)));
        assert(!sizes.contains_key((section, "Scale"@)));
    }
    if sized.len() == 0 {
        let nothing = Seq::<char>::empty();
        assert(joined(names, ',') =~= nothing);
        assert(split_at_each(nothing, ',') =~= seq![nothing]);
        assert(!sizes.contains_key((nothing, "Size"@))) by {
            if names.contains(nothing) {
                let at = choose|at: int| 0 <= at < names.len() && names[at] == nothing;
            }
        }
        assert(!entries.contains_key((nothing, "Size"@)));
        assert(decode(nothing) is None);
        let one = seq![nothing];
        assert(one.drop_last() =~= Seq::<Seq<char>>::empty());
        assert(one.last() == nothing);
        assert(Seq::<Seq<char>>::empty().filter_map(decode) =~= Seq::<DirectoryView>::empty());
        assert(one.drop_last().filter_map(decode) =~= Seq::<DirectoryView>::empty());
        assert(decode(one.last()) is None);
        assert(one.filter_map(decode) =~= Seq::<DirectoryView>::empty());
        assert(wanted =~= Seq::<DirectoryView>::empty());
    } else {
        lemma_joined_names_split(names, ',');
        assert forall|k: int| 0 <= k < names.len() implies decode(#[trigger] names[k]) == Some(
            wanted[k],
        ) by {
            let name = sized[k].0;
            assert(names[k] == name);
            assert(entries[(name, "Size"@)] == decimal_digits(sized[k].1 as nat));
            assert(names.contains(name));
            assert(entries.contains_key((name, "Size"@)));
            lemma_written_number_is_read_back(sized[k].1);
            assert(!entries.contains_key((name, "Type"@)));
            assert(!entries.contains_key((name, "Scale"@)));
        }
        lemma_filter_map_keeps_all(names, decode, wanted);
    }
}

} // verus!
