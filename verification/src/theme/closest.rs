//! The order in which subdirectories are tried when none fits exactly.
use vstd::prelude::*;
use vstd::relations::sorted_by;
use vstd::relations::total_ordering;
use vstd::seq_lib::lemma_sorted_unique;
use crate::SizeScheme;
use crate::theme::directories::Directory;
use crate::theme::directories::DirectoryView;
use crate::theme::directories::directory_views;
use crate::theme::directories::distance_bound;

verus! {

/// The absolute value of a distance.
pub open spec fn magnitude(distance: int) -> int {
    if distance < 0 {
        -distance
    } else {
        distance
    }
}

/// Whether a subdirectory at distance `a` is tried strictly before one at
/// distance `b`. `Closest` goes by the absolute distance. `LargerClosest`
/// puts every positive distance before every other one, `SmallerClosest`
/// every negative distance before every other one; within such a group the
/// absolute distance decides.
pub open spec fn sorts_before(scheme: SizeScheme, a: int, b: int) -> bool {
    match scheme {
        SizeScheme::Closest => magnitude(a) < magnitude(b),
        SizeScheme::LargerClosest => if (a > 0) == (b > 0) {
            magnitude(a) < magnitude(b)
        } else {
            a > 0
        },
        SizeScheme::SmallerClosest => if (a < 0) == (b < 0) {
            magnitude(a) < magnitude(b)
        } else {
            a < 0
        },
    }
}

/// Whether subdirectory `i` is tried no later than subdirectory `j`: its
/// distance sorts before that of `j`, or neither sorts before the other and
/// `i` comes no later in the index document.
pub open spec fn tried_first(
    dirs: Seq<DirectoryView>,
    size: u16,
    scale: u16,
    scheme: SizeScheme,
    i: int,
    j: int,
) -> bool {
    let a = dirs[i].distance(size, scale);
    let b = dirs[j].distance(size, scale);
    sorts_before(scheme, a, b) || (!sorts_before(scheme, b, a) && i <= j)
}

/// [`tried_first`] as a relation on positions.
pub open spec fn ranking(dirs: Seq<DirectoryView>, size: u16, scale: u16, scheme: SizeScheme)
    -> spec_fn(int, int) -> bool {
    |i: int, j: int| tried_first(dirs, size, scale, scheme, i, j)
}

/// The positions below `limit` of the subdirectories that take part in the
/// search at `scale`, in ascending order.
pub open spec fn candidates_below(dirs: Seq<DirectoryView>, scale: u16, limit: int) -> Seq<int> {
    Seq::new(limit as nat, |i: int| i).filter(|i: int| dirs[i].is_candidate(scale))
}

/// The positions of all subdirectories that take part in the search.
pub open spec fn candidates(dirs: Seq<DirectoryView>, scale: u16) -> Seq<int> {
    candidates_below(dirs, scale, dirs.len() as int)
}

/// The positions of the subdirectories to try for `size` at `scale`, best
/// first: the candidates, sorted by [`ranking`].
pub open spec fn closest_order(
    dirs: Seq<DirectoryView>,
    size: u16,
    scale: u16,
    scheme: SizeScheme,
) -> Seq<int> {
    candidates(dirs, scale).sort_by(ranking(dirs, size, scale, scheme))
}

/// Positions as mathematical integers.
pub open spec fn indices(order: Seq<usize>) -> Seq<int> {
    order.map_values(|i: usize| i as int)
}

/// A distance that sorts before another one sorts before all that do not
/// sort before that one.
pub proof fn lemma_sorts_before_chain(scheme: SizeScheme, a: int, b: int, c: int)
    requires
        sorts_before(scheme, a, b),
        !sorts_before(scheme, c, b),
    ensures
        sorts_before(scheme, a, c),
        !sorts_before(scheme, b, a),
{
}

/// The ranking is a total order on positions.
pub proof fn lemma_ranking_total(
    dirs: Seq<DirectoryView>,
    size: u16,
    scale: u16,
    scheme: SizeScheme,
)
    ensures
        total_ordering(ranking(dirs, size, scale, scheme)),
{
    let leq = ranking(dirs, size, scale, scheme);
    assert forall|x: int| #[trigger] leq(x, x) by {}
    assert forall|x: int, y: int| #[trigger] leq(x, y) && #[trigger] leq(y, x) implies x == y by {}
    assert forall|x: int, y: int, z: int| #[trigger] leq(x, y) && #[trigger] leq(y, z) implies leq(
        x,
        z,
    ) by {}
    assert forall|x: int, y: int| #[trigger] leq(x, y) || #[trigger] leq(y, x) by {}
}

/// Every position in the closest order is one of a candidate in `dirs`,
/// and every candidate has its position there.
pub proof fn lemma_order_in_range(
    dirs: Seq<DirectoryView>,
    size: u16,
    scale: u16,
    scheme: SizeScheme,
)
    ensures
        forall|k: int|
            0 <= k < closest_order(dirs, size, scale, scheme).len() ==> {
                let i = #[trigger] closest_order(dirs, size, scale, scheme)[k];
                0 <= i < dirs.len() && dirs[i].is_candidate(scale)
            },
        forall|i: int|
            0 <= i < dirs.len() && dirs[i].is_candidate(scale) ==> closest_order(
                dirs,
                size,
                scale,
                scheme,
            ).contains(i),
{
    broadcast use vstd::seq_lib::group_to_multiset_ensures;

    let all = Seq::new(dirs.len(), |i: int| i);
    let takes_part = |i: int| dirs[i].is_candidate(scale);
    let wanted = candidates(dirs, scale);
    let order = closest_order(dirs, size, scale, scheme);
    lemma_ranking_total(dirs, size, scale, scheme);
    wanted.lemma_sort_by_ensures(ranking(dirs, size, scale, scheme));
    assert forall|k: int| 0 <= k < order.len() implies {
        let i = #[trigger] order[k];
        0 <= i < dirs.len() && dirs[i].is_candidate(scale)
    } by {
        let i = order[k];
        assert(order.contains(i));
        assert(wanted.contains(i));
        all.lemma_filter_contains_rev(takes_part, i);
        let at = choose|at: int| 0 <= at < wanted.len() && wanted[at] == i;
        all.lemma_filter_pred(takes_part, at);
        let origin = choose|origin: int| 0 <= origin < all.len() && all[origin] == i;
        assert(all[origin] == origin);
    }
    assert forall|i: int| 0 <= i < dirs.len() && dirs[i].is_candidate(scale) implies order.contains(
        i,
    ) by {
        assert(all[i] == i);
        all.lemma_filter_contains(takes_part, i);
        assert(wanted.contains(i));
        assert(wanted.to_multiset().count(i) > 0);
        assert(order.to_multiset().count(i) > 0);
    }
}

/// What one more position adds to the candidates.
proof fn lemma_candidates_step(dirs: Seq<DirectoryView>, scale: u16, limit: int)
    requires
        0 <= limit,
    ensures
        candidates_below(dirs, scale, limit + 1) == if dirs[limit].is_candidate(scale) {
            candidates_below(dirs, scale, limit).push(limit)
        } else {
            candidates_below(dirs, scale, limit)
        },
        candidates_below(dirs, scale, 0) == Seq::<int>::empty(),
{
    reveal(Seq::filter);
    let all = Seq::new((limit + 1) as nat, |i: int| i);
    assert(all.drop_last() =~= Seq::new(limit as nat, |i: int| i));
    assert(all.last() == limit);
}

/// Whether distance `a` sorts before distance `b`.
fn before(scheme: SizeScheme, a: i64, b: i64) -> (first: bool)
    requires
        -distance_bound() < a < distance_bound(),
        -distance_bound() < b < distance_bound(),
    ensures
        first == sorts_before(scheme, a as int, b as int),
{
    let size_a: i64 = if a < 0 { -a } else { a };
    let size_b: i64 = if b < 0 { -b } else { b };
    match scheme {
        SizeScheme::Closest => size_a < size_b,
        SizeScheme::LargerClosest => if (a > 0) == (b > 0) {
            size_a < size_b
        } else {
            a > 0
        },
        SizeScheme::SmallerClosest => if (a < 0) == (b < 0) {
            size_a < size_b
        } else {
            a < 0
        },
    }
}

/// Where a subdirectory at `distance` goes into `order`: behind every
/// position whose distance it does not sort before.
fn insertion_point(
    dirs: &Vec<Directory>,
    order: &Vec<usize>,
    distance: i64,
    size: u16,
    size_scheme: SizeScheme,
    scale: u16,
) -> (point: usize)
    requires
        forall|q: int| 0 <= q < order.len() ==> order[q] < dirs.len(),
        -distance_bound() < distance < distance_bound(),
    ensures
        point <= order.len(),
        forall|q: int|
            0 <= q < point ==> !sorts_before(
                size_scheme,
                distance as int,
                (#[trigger] dirs[order[q] as int])@.distance(size, scale),
            ),
        point < order.len() ==> sorts_before(
            size_scheme,
            distance as int,
            dirs[order[point as int] as int]@.distance(size, scale),
        ),
{
    let mut point: usize = 0;
    while point < order.len()
        invariant
            point <= order.len(),
            forall|q: int| 0 <= q < order.len() ==> order[q] < dirs.len(),
            -distance_bound() < distance < distance_bound(),
            forall|q: int|
                0 <= q < point ==> !sorts_before(
                    size_scheme,
                    distance as int,
                    (#[trigger] dirs[order[q] as int])@.distance(size, scale),
                ),
        decreases order.len() - point,
    {
        let other = dirs[order[point]].directory_size_distance(size, scale);
        if before(size_scheme, distance, other) {
            return point;
        }
        point += 1;
    }
    point
}

/// The positions in `dirs` of the subdirectories to try for `size` at
/// `scale` when none fits exactly, best first. Fixed subdirectories of
/// another scale are left out; the others are sorted by `size_scheme`, and
/// those that rank alike stay in the order of the index document.
pub fn closest_positions(dirs: &Vec<Directory>, size: u16, size_scheme: SizeScheme, scale: u16)
    -> (order: Vec<usize>)
    ensures
        indices(order@) == closest_order(directory_views(dirs@), size, scale, size_scheme),
{
    broadcast use vstd::seq_lib::group_to_multiset_ensures;

    let ghost views = directory_views(dirs@);
    let ghost leq = ranking(views, size, scale, size_scheme);
    let mut order: Vec<usize> = Vec::new();
    let mut k: usize = 0;
    proof {
        lemma_ranking_total(views, size, scale, size_scheme);
        lemma_candidates_step(views, scale, 0);
        assert(indices(order@) =~= Seq::<int>::empty());
    }
    while k < dirs.len()
        invariant
            k <= dirs.len(),
            views == directory_views(dirs@),
            leq == ranking(views, size, scale, size_scheme),
            total_ordering(leq),
            sorted_by(indices(order@), leq),
            indices(order@).to_multiset() == candidates_below(views, scale, k as int).to_multiset(),
            forall|q: int| 0 <= q < order.len() ==> order[q] < k,
        decreases dirs.len() - k,
    {
        proof {
            lemma_candidates_step(views, scale, k as int);
            assert(views[k as int] == dirs[k as int]@);
        }
        if dirs[k].is_candidate(scale) {
            let distance = dirs[k].directory_size_distance(size, scale);
            let point = insertion_point(dirs, &order, distance, size, size_scheme, scale);
            let ghost before_insert = indices(order@);
            order.insert(point, k);
            proof {
                let after = indices(order@);
                assert(after =~= before_insert.insert(point as int, k as int));
                vstd::seq_lib::to_multiset_insert(before_insert, point as int, k as int);
                vstd::seq_lib::to_multiset_build(
                    candidates_below(views, scale, k as int),
                    k as int,
                );
                assert forall|i: int, j: int| 0 <= i < j < after.len() implies #[trigger] leq(
                    after[i],
                    after[j],
                ) by {
                    if j < point {
                        assert(leq(before_insert[i], before_insert[j]));
                    } else if j == point {
                        assert(after[i] == before_insert[i]);
                    } else if i < point {
                        assert(leq(before_insert[i], before_insert[j - 1]));
                    } else if i == point {
                        if j - 1 > point {
                            assert(leq(before_insert[point as int], before_insert[j - 1]));
                        }
                        lemma_sorts_before_chain(
                            size_scheme,
                            distance as int,
                            views[before_insert[point as int]].distance(size, scale),
                            views[before_insert[j - 1]].distance(size, scale),
                        );
                    } else {
                        assert(leq(before_insert[i - 1], before_insert[j - 1]));
                    }
                }
            }
        }
        k += 1;
    }
    proof {
        let wanted = candidates(views, scale);
        wanted.lemma_sort_by_ensures(leq);
        lemma_sorted_unique(indices(order@), wanted.sort_by(leq), leq);
    }
    order
}

} // verus!
