//! The catalog of installed themes: which theme directories were found
//! under the search roots, and which index document each of them uses.
use vstd::prelude::*;
use crate::theme::Theme;
use crate::theme::ThemeView;
use crate::theme::paths::ThemePath;
use crate::theme::text::join_path;

verus! {

/// One entry found directly under a search root.
#[derive(Clone, Debug, PartialEq, Eq)]
pub struct RootEntry {
    /// The name of the entry: the name of the theme, if it is one.
    pub name: String,
    /// The path of the entry.
    pub path: String,
    /// Whether the entry is a directory.
    pub is_dir: bool,
    /// Whether the entry holds an index document of its own.
    pub has_index: bool,
}

/// A [`RootEntry`] with its texts as sequences of characters.
pub ghost struct RootEntryView {
    pub name: Seq<char>,
    pub path: Seq<char>,
    pub is_dir: bool,
    pub has_index: bool,
}

impl View for RootEntry {
    type V = RootEntryView;

    open spec fn view(&self) -> RootEntryView {
        RootEntryView {
            name: self.name@,
            path: self.path@,
            is_dir: self.is_dir,
            has_index: self.has_index,
        }
    }
}

/// The views of a list of entries.
pub open spec fn entry_views(entries: Seq<RootEntry>) -> Seq<RootEntryView> {
    entries.map_values(|e: RootEntry| e@)
}

/// What listing one search root gave.
#[derive(Clone, Debug, PartialEq, Eq)]
pub enum RootListing {
    /// The root could not be listed. It contributes nothing.
    Unreadable,
    /// The entries directly under the root.
    Entries(Vec<RootEntry>),
}

/// The entries that one search root contributes.
pub open spec fn listed(listing: RootListing) -> Seq<RootEntryView> {
    match listing {
        RootListing::Unreadable => Seq::empty(),
        RootListing::Entries(entries) => entry_views(entries@),
    }
}

/// All entries found under the search roots, root after root in the order
/// of the roots. A root that could not be listed is passed over.
pub open spec fn found(roots: Seq<RootListing>) -> Seq<RootEntryView>
    decreases roots.len(),
{
    if roots.len() == 0 {
        Seq::empty()
    } else {
        found(roots.drop_last()) + listed(roots.last())
    }
}

/// Whether `m` is the first position of `s` that meets `p`, or the length
/// of `s` where no position meets it.
pub open spec fn is_first_where<A>(s: Seq<A>, p: spec_fn(A) -> bool, m: int) -> bool {
    &&& 0 <= m <= s.len()
    &&& forall|j: int| 0 <= j < m ==> !p(#[trigger] s[j])
    &&& m < s.len() ==> p(s[m])
}

/// The first position of `s` that meets `p`; the length of `s` where no
/// position meets it.
pub open spec fn first_where<A>(s: Seq<A>, p: spec_fn(A) -> bool) -> int {
    choose|m: int| is_first_where(s, p, m)
}

/// There is a first position, and `first_where` is it.
pub proof fn lemma_first_where_exists<A>(s: Seq<A>, p: spec_fn(A) -> bool)
    ensures
        is_first_where(s, p, first_where(s, p)),
    decreases s.len(),
{
    if s.len() == 0 {
        assert(is_first_where(s, p, 0));
    } else {
        let shorter = s.drop_last();
        lemma_first_where_exists(shorter, p);
        let m = first_where(shorter, p);
        if m < shorter.len() {
            assert(s[m] == shorter[m]);
            assert forall|j: int| 0 <= j < m implies !p(#[trigger] s[j]) by {
                assert(s[j] == shorter[j]);
            }
            assert(is_first_where(s, p, m));
        } else {
            assert forall|j: int| 0 <= j < m implies !p(#[trigger] s[j]) by {
                assert(s[j] == shorter[j]);
            }
            if p(s.last()) {
                assert(is_first_where(s, p, m));
            } else {
                assert(is_first_where(s, p, m + 1));
            }
        }
    }
}

/// A position that is the first one is what `first_where` gives.
pub proof fn lemma_first_where_is<A>(s: Seq<A>, p: spec_fn(A) -> bool, m: int)
    requires
        is_first_where(s, p, m),
    ensures
        first_where(s, p) == m,
{
    let chosen = first_where(s, p);
    assert(is_first_where(s, p, chosen));
    if chosen < m {
        assert(!p(s[chosen]));
    } else if m < chosen {
        assert(!p(s[m]));
    }
}

/// Entries that are a directory called `name` with an index document of
/// its own.
pub open spec fn indexed_as(name: Seq<char>) -> spec_fn(RootEntryView) -> bool {
    |e: RootEntryView| e.name == name && e.is_dir && e.has_index
}

/// Entries that are a directory called `name`.
pub open spec fn named_dir(name: Seq<char>) -> spec_fn(RootEntryView) -> bool {
    |e: RootEntryView| e.name == name && e.is_dir
}

/// The place of an entry as a theme that uses the document at `index`.
pub open spec fn placed(index: Seq<char>) -> spec_fn(RootEntryView) -> ThemeView {
    |e: RootEntryView| ThemeView { path: e.path, index }
}

/// The position in `flat` of the first directory called `name` that has an
/// index document of its own; the length of `flat` where there is none.
pub open spec fn first_indexed(flat: Seq<RootEntryView>, name: Seq<char>) -> int {
    first_where(flat, indexed_as(name))
}

/// The path of the index document that lies in the directory `dir`.
pub open spec fn index_in(dir: Seq<char>) -> Seq<char> {
    join_path(dir, "index.theme"@)
}

/// The places of the theme `name` among the entries `flat`, given that one
/// of them has an index document: every directory of that name, all with
/// the first index document found. Those from the first indexed one on come
/// first, in the order in which they were found; those found before it
/// follow, in that order too.
pub open spec fn located(flat: Seq<RootEntryView>, name: Seq<char>) -> Seq<ThemeView> {
    let m = first_indexed(flat, name);
    (flat.skip(m) + flat.take(m)).filter(named_dir(name)).map_values(
        placed(index_in(flat[m].path)),
    )
}

/// What the catalog holds for `name`: its places, or nothing where no
/// directory of that name has an index document.
pub open spec fn cataloged(flat: Seq<RootEntryView>, name: Seq<char>) -> Option<Seq<ThemeView>> {
    if first_indexed(flat, name) < flat.len() {
        Some(located(flat, name))
    } else {
        None
    }
}

/// The theme that a directory entry makes with the index document found
/// earlier for its name, if any: none where the entry is no directory, or
/// has no index document while none was found earlier. A document found
/// earlier goes before the entry's own.
pub open spec fn theme_from(
    path: Seq<char>,
    is_dir: bool,
    has_index: bool,
    index: Option<Seq<char>>,
) -> Option<ThemeView> {
    if !is_dir || (!has_index && index is None) {
        None
    } else {
        Some(
            ThemeView {
                path,
                index: match index {
                    Some(earlier) => earlier,
                    None => index_in(path),
                },
            },
        )
    }
}

/// The views of a list of themes.
pub open spec fn theme_views(themes: Seq<Theme>) -> Seq<ThemeView> {
    themes.map_values(|t: Theme| t@)
}

/// The themes of one name.
#[derive(Clone, Debug, PartialEq, Eq)]
pub struct CatalogEntry {
    /// The name of the theme.
    pub name: String,
    /// The path of the index document that all its places use.
    pub index: String,
    /// The places of the theme, in the order in which they are tried.
    pub themes: Vec<Theme>,
}

/// The installed themes by name.
#[derive(Clone, Debug, PartialEq, Eq)]
pub struct ThemeCatalog {
    /// One entry for each name, in the order in which an index document
    /// was first found for it.
    pub entries: Vec<CatalogEntry>,
}

/// Rows called `name`.
pub open spec fn called(name: Seq<char>) -> spec_fn(CatalogEntry) -> bool {
    |row: CatalogEntry| row.name@ == name
}

/// Whether some row is called `name`.
pub open spec fn has_row(rows: Seq<CatalogEntry>, name: Seq<char>) -> bool {
    exists|pos: int| 0 <= pos < rows.len() && (#[trigger] rows[pos]).name@ == name
}

impl ThemeCatalog {
    /// No name occurs twice.
    pub open spec fn wf(&self) -> bool {
        forall|a: int, b: int|
            0 <= a < b < self.entries.len() ==> (#[trigger] self.entries[a]).name@ != (
            #[trigger] self.entries[b]).name@
    }

    /// The places that the catalog holds for `name`, if it holds any: those
    /// of the first entry of that name.
    pub open spec fn locations(&self, name: Seq<char>) -> Option<Seq<ThemeView>> {
        let pos = first_where(self.entries@, called(name));
        if pos < self.entries.len() {
            Some(theme_views(self.entries[pos].themes@))
        } else {
            None
        }
    }

    /// The entries stand in the order in which an index document was first
    /// found for their names among `flat`, and each records the path of
    /// that document.
    pub open spec fn in_order_of(&self, flat: Seq<RootEntryView>) -> bool {
        &&& forall|pos: int|
            0 <= pos < self.entries.len() ==> {
                let row = #[trigger] self.entries[pos];
                &&& 0 <= first_indexed(flat, row.name@) < flat.len()
                &&& row.index@ == index_in(flat[first_indexed(flat, row.name@)].path)
            }
        &&& forall|a: int, b: int|
            0 <= a < b < self.entries.len() ==> first_indexed(
                flat,
                (#[trigger] self.entries[a]).name@,
            ) < first_indexed(flat, (#[trigger] self.entries[b]).name@)
    }

    /// The number of names in the catalog.
    pub fn len(&self) -> (count: usize)
        ensures
            count == self.entries.len(),
    {
        self.entries.len()
    }

    /// The places of the theme `name`, in the order in which they are
    /// tried; nothing where the catalog does not hold the name.
    pub fn get(&self, name: &str) -> (themes: Option<&Vec<Theme>>)
        ensures
            match themes {
                Some(list) => self.locations(name@) == Some(theme_views(list@)),
                None => self.locations(name@) is None,
            },
    {
        match position(&self.entries, name) {
            Some(pos) => {
                proof {
                    lemma_first_where_is(self.entries@, called(name@), pos as int);
                }
                Some(&self.entries[pos].themes)
            },
            None => {
                proof {
                    lemma_first_where_is(self.entries@, called(name@), self.entries.len() as int);
                }
                None
            },
        }
    }
}

/// The position of the first row called `name`.
fn position(rows: &Vec<CatalogEntry>, name: &str) -> (place: Option<usize>)
    ensures
        match place {
            Some(pos) => is_first_where(rows@, called(name@), pos as int) && pos < rows.len(),
            None => is_first_where(rows@, called(name@), rows.len() as int) && !has_row(
                rows@,
                name@,
            ),
        },
{
    let wanted = String::from_str(name);
    let mut pos: usize = 0;
    while pos < rows.len()
        invariant
            pos <= rows.len(),
            wanted@ == name@,
            forall|q: int| 0 <= q < pos ==> (#[trigger] rows[q]).name@ != name@,
        decreases rows.len() - pos,
    {
        if rows[pos].name == wanted {
            return Some(pos);
        }
        pos += 1;
    }
    None
}

impl Theme {
    /// Makes the theme of a directory entry. `index` is the index document
    /// found earlier for the entry's name, if any, and goes before the
    /// entry's own. There is no theme where the entry is no directory, or
    /// has no index document while none was found earlier.
    pub fn from_path(path: &str, is_dir: bool, has_index: bool, index: Option<&String>) -> (theme:
        Option<Theme>)
        ensures
            match theme {
                Some(t) => theme_from(
                    path@,
                    is_dir,
                    has_index,
                    match index {
                        Some(earlier) => Some(earlier@),
                        None => None,
                    },
                ) == Some(t@),
                None => theme_from(
                    path@,
                    is_dir,
                    has_index,
                    match index {
                        Some(earlier) => Some(earlier@),
                        None => None,
                    },
                ) is None,
            },
    {
        let known = has_index || index.is_some();
        if !known || !is_dir {
            return None;
        }
        let path = ThemePath(String::from_str(path));
        match index {
            Some(earlier) => Some(Theme { path, index: earlier.clone() }),
            None => {
                let own = path.index_path();
                Some(Theme { path, index: own })
            },
        }
    }
}

/// What holds of a row after the entries before `k` were swept: an index
/// document was found for its name at a position before `k`, the row uses
/// it, and its places are the directories of its name from that position
/// up to `k`.
spec fn row_swept(flat: Seq<RootEntryView>, row: CatalogEntry, k: int) -> bool {
    let m = first_indexed(flat, row.name@);
    &&& 0 <= m < k <= flat.len()
    &&& is_first_where(flat, indexed_as(row.name@), m)
    &&& row.index@ == index_in(flat[m].path)
    &&& theme_views(row.themes@) == flat.subrange(m, k).filter(named_dir(row.name@)).map_values(
        placed(row.index@),
    )
}

/// The smaller of two positions.
spec fn lower(a: int, b: int) -> int {
    if a < b {
        a
    } else {
        b
    }
}

/// What holds of a row while the pending entries are revisited: besides
/// what the sweep gave it, it has the directories of its name that lie
/// before `bound` and before its index document.
spec fn row_revisited(flat: Seq<RootEntryView>, row: CatalogEntry, bound: int) -> bool {
    let m = first_indexed(flat, row.name@);
    &&& 0 <= m < flat.len()
    &&& is_first_where(flat, indexed_as(row.name@), m)
    &&& row.index@ == index_in(flat[m].path)
    &&& theme_views(row.themes@) == flat.skip(m).filter(named_dir(row.name@)).map_values(
        placed(row.index@),
    ) + flat.take(lower(bound, m)).filter(named_dir(row.name@)).map_values(placed(row.index@))
}

/// Whether the entry at `j` is set aside during the sweep: a directory for
/// whose name no index document was found up to and including `j`.
spec fn is_pending(flat: Seq<RootEntryView>, j: int) -> bool {
    0 <= j < flat.len() && flat[j].is_dir && j < first_indexed(flat, flat[j].name)
}

/// What holds of the positions set aside after the entries before `k` were
/// swept: they are the pending positions before `k`, in ascending order.
spec fn set_aside(flat: Seq<RootEntryView>, aside: Seq<int>, k: int) -> bool {
    &&& forall|t: int| 0 <= t < aside.len() ==> (#[trigger] aside[t]) < k && is_pending(flat, aside[t])
    &&& forall|t1: int, t2: int| 0 <= t1 < t2 < aside.len() ==> aside[t1] < aside[t2]
    &&& forall|j: int| 0 <= j < k && #[trigger] is_pending(flat, j) ==> aside.contains(j)
}

/// The position at which the revisit stands before it takes entry `t`.
spec fn revisit_bound(flat: Seq<RootEntryView>, aside: Seq<int>, t: int) -> int {
    if t < aside.len() {
        aside[t]
    } else {
        flat.len() as int
    }
}

/// Entries that do not meet a filter add nothing to what it keeps.
proof fn lemma_filter_gap<A>(s: Seq<A>, p: spec_fn(A) -> bool, a: int, b: int)
    requires
        0 <= a <= b <= s.len(),
        forall|j: int| a <= j < b ==> !p(#[trigger] s[j]),
    ensures
        s.take(b).filter(p) == s.take(a).filter(p),
    decreases b - a,
{
    if a < b {
        lemma_filter_gap(s, p, a, b - 1);
        assert(s.take(b) =~= s.take(b - 1).push(s[b - 1]));
        s.take(b - 1).lemma_filter_push(s[b - 1], p);
    }
}

/// A row that the next entry does not belong to stays as it is.
proof fn lemma_row_keeps(flat: Seq<RootEntryView>, row: CatalogEntry, k: int)
    requires
        row_swept(flat, row, k),
        k < flat.len(),
        !named_dir(row.name@)(flat[k]),
    ensures
        row_swept(flat, row, k + 1),
{
    let m = first_indexed(flat, row.name@);
    assert(flat.subrange(m, k + 1) =~= flat.subrange(m, k).push(flat[k]));
    flat.subrange(m, k).lemma_filter_push(flat[k], named_dir(row.name@));
}

/// A row that got the next entry as one more place holds for one entry more.
proof fn lemma_row_grows(flat: Seq<RootEntryView>, before: CatalogEntry, after: CatalogEntry, k: int)
    requires
        row_swept(flat, before, k),
        k < flat.len(),
        named_dir(before.name@)(flat[k]),
        after.name@ == before.name@,
        after.index@ == before.index@,
        theme_views(after.themes@) == theme_views(before.themes@).push(
            placed(before.index@)(flat[k]),
        ),
    ensures
        row_swept(flat, after, k + 1),
{
    let m = first_indexed(flat, before.name@);
    let keep = named_dir(before.name@);
    assert(flat.subrange(m, k + 1) =~= flat.subrange(m, k).push(flat[k]));
    flat.subrange(m, k).lemma_filter_push(flat[k], keep);
    assert(flat.subrange(m, k + 1).filter(keep).map_values(placed(before.index@))
        =~= flat.subrange(m, k).filter(keep).map_values(placed(before.index@)).push(
        placed(before.index@)(flat[k]),
    ));
}

/// A row made for the first indexed directory of its name holds from there.
proof fn lemma_row_starts(flat: Seq<RootEntryView>, row: CatalogEntry, k: int)
    requires
        0 <= k < flat.len(),
        is_first_where(flat, indexed_as(row.name@), k),
        row.index@ == index_in(flat[k].path),
        theme_views(row.themes@) == seq![placed(row.index@)(flat[k])],
    ensures
        row_swept(flat, row, k + 1),
{
    lemma_first_where_is(flat, indexed_as(row.name@), k);
    let keep = named_dir(row.name@);
    assert(flat.subrange(k, k + 1) =~= Seq::<RootEntryView>::empty().push(flat[k]));
    reveal(Seq::filter);
    assert(Seq::<RootEntryView>::empty().filter(keep) =~= Seq::<RootEntryView>::empty());
    Seq::<RootEntryView>::empty().lemma_filter_push(flat[k], keep);
    assert(flat.subrange(k, k + 1).filter(keep).map_values(placed(row.index@)) =~= seq![
        placed(row.index@)(flat[k]),
    ]);
}

/// No directory called `name` lies between the places where the revisit
/// stands before and after entry `t`, below `limit`, but entry `t` itself.
proof fn lemma_nothing_between(
    flat: Seq<RootEntryView>,
    aside: Seq<int>,
    t: int,
    name: Seq<char>,
    from: int,
)
    requires
        set_aside(flat, aside, flat.len() as int),
        0 <= t < aside.len(),
        aside[t] < from || (aside[t] == from && !named_dir(name)(flat[from])),
    ensures
        forall|j: int|
            from <= j < lower(revisit_bound(flat, aside, t + 1), first_indexed(flat, name))
                ==> !named_dir(name)(#[trigger] flat[j]),
{
    let m = first_indexed(flat, name);
    let high = lower(revisit_bound(flat, aside, t + 1), m);
    assert forall|j: int| from <= j < high implies !named_dir(name)(#[trigger] flat[j]) by {
        if named_dir(name)(flat[j]) {
            assert(is_pending(flat, j));
            assert(aside.contains(j));
            let at = choose|at: int| 0 <= at < aside.len() && aside[at] == j;
            if at <= t {
                if at < t {
                    assert(aside[at] < aside[t]);
                }
            } else {
                if t + 1 < at {
                    assert(aside[t + 1] < aside[at]);
                }
            }
        }
    }
}

/// Before the first pending entry is revisited, a swept row has nothing
/// from before its index document.
proof fn lemma_revisit_begins(flat: Seq<RootEntryView>, aside: Seq<int>, row: CatalogEntry)
    requires
        set_aside(flat, aside, flat.len() as int),
        row_swept(flat, row, flat.len() as int),
    ensures
        row_revisited(flat, row, revisit_bound(flat, aside, 0)),
{
    let m = first_indexed(flat, row.name@);
    let keep = named_dir(row.name@);
    let high = lower(revisit_bound(flat, aside, 0), m);
    assert(flat.subrange(m, flat.len() as int) =~= flat.skip(m));
    assert forall|j: int| 0 <= j < high implies !keep(#[trigger] flat[j]) by {
        if keep(flat[j]) {
            assert(is_pending(flat, j));
            assert(aside.contains(j));
            let at = choose|at: int| 0 <= at < aside.len() && aside[at] == j;
            if 0 < at {
                assert(aside[0] < aside[at]);
            }
        }
    }
    lemma_filter_gap(flat, keep, 0, high);
    reveal(Seq::filter);
    assert(flat.take(0).filter(keep) =~= Seq::<RootEntryView>::empty());
    assert(flat.skip(m).filter(keep).map_values(placed(row.index@)) + flat.take(high).filter(
        keep,
    ).map_values(placed(row.index@)) =~= flat.skip(m).filter(keep).map_values(
        placed(row.index@),
    ));
}

/// A row that the revisited entry does not belong to stays as it is.
proof fn lemma_revisit_keeps(
    flat: Seq<RootEntryView>,
    aside: Seq<int>,
    t: int,
    row: CatalogEntry,
)
    requires
        set_aside(flat, aside, flat.len() as int),
        0 <= t < aside.len(),
        row_revisited(flat, row, revisit_bound(flat, aside, t)),
        flat[aside[t]].name != row.name@,
    ensures
        row_revisited(flat, row, revisit_bound(flat, aside, t + 1)),
{
    let m = first_indexed(flat, row.name@);
    let keep = named_dir(row.name@);
    let low = lower(aside[t], m);
    let high = lower(revisit_bound(flat, aside, t + 1), m);
    if t + 1 < aside.len() {
        assert(aside[t] < aside[t + 1]);
    }
    assert(is_pending(flat, aside[t]));
    if low < high {
        lemma_nothing_between(flat, aside, t, row.name@, low);
        lemma_filter_gap(flat, keep, low, high);
    } else {
        assert(low == high);
    }
}

/// A row that got the revisited entry as one more place holds up to the
/// next pending entry.
proof fn lemma_revisit_grows(
    flat: Seq<RootEntryView>,
    aside: Seq<int>,
    t: int,
    before: CatalogEntry,
    after: CatalogEntry,
)
    requires
        set_aside(flat, aside, flat.len() as int),
        0 <= t < aside.len(),
        row_revisited(flat, before, revisit_bound(flat, aside, t)),
        flat[aside[t]].name == before.name@,
        after.name@ == before.name@,
        after.index@ == before.index@,
        theme_views(after.themes@) == theme_views(before.themes@).push(
            placed(before.index@)(flat[aside[t]]),
        ),
    ensures
        row_revisited(flat, after, revisit_bound(flat, aside, t + 1)),
{
    let m = first_indexed(flat, before.name@);
    let keep = named_dir(before.name@);
    let put = placed(before.index@);
    let j = aside[t];
    let high = lower(revisit_bound(flat, aside, t + 1), m);
    assert(is_pending(flat, j));
    assert(j < m);
    if t + 1 < aside.len() {
        assert(aside[t] < aside[t + 1]);
    }
    assert(j + 1 <= high);
    assert(flat.take(j + 1) =~= flat.take(j).push(flat[j]));
    flat.take(j).lemma_filter_push(flat[j], keep);
    lemma_nothing_between(flat, aside, t, before.name@, j + 1);
    lemma_filter_gap(flat, keep, j + 1, high);
    assert(flat.take(high).filter(keep).map_values(put) =~= flat.take(j).filter(keep).map_values(
        put,
    ).push(put(flat[j])));
    assert(theme_views(after.themes@) =~= flat.skip(m).filter(keep).map_values(put) + flat.take(
        high,
    ).filter(keep).map_values(put));
}

/// A row that was revisited to the end holds the places of its name.
proof fn lemma_revisit_ends(flat: Seq<RootEntryView>, row: CatalogEntry)
    requires
        row_revisited(flat, row, flat.len() as int),
    ensures
        cataloged(flat, row.name@) == Some(theme_views(row.themes@)),
{
    let m = first_indexed(flat, row.name@);
    let keep = named_dir(row.name@);
    let put = placed(row.index@);
    Seq::filter_distributes_over_add(flat.skip(m), flat.take(m), keep);
    assert((flat.skip(m) + flat.take(m)).filter(keep).map_values(put) =~= flat.skip(m).filter(
        keep,
    ).map_values(put) + flat.take(m).filter(keep).map_values(put));
}

/// Copies the entries of all roots that could be listed into one list.
fn collect(roots: &Vec<RootListing>) -> (flat: Vec<RootEntry>)
    ensures
        entry_views(flat@) == found(roots@),
{
    let mut flat: Vec<RootEntry> = Vec::new();
    let mut i: usize = 0;
    proof {
        assert(roots@.take(0) =~= Seq::<RootListing>::empty());
        assert(entry_views(flat@) =~= Seq::<RootEntryView>::empty());
    }
    while i < roots.len()
        invariant
            i <= roots.len(),
            entry_views(flat@) == found(roots@.take(i as int)),
        decreases roots.len() - i,
    {
        let ghost before = found(roots@.take(i as int));
        proof {
            assert(roots@.take(i + 1).drop_last() =~= roots@.take(i as int));
            assert(roots@.take(i + 1).last() == roots[i as int]);
        }
        match &roots[i] {
            RootListing::Unreadable => {
                assert(before + listed(roots[i as int]) =~= before);
            },
            RootListing::Entries(entries) => {
                let mut j: usize = 0;
                proof {
                    assert(before + entry_views(entries@).take(0) =~= before);
                }
                while j < entries.len()
                    invariant
                        j <= entries.len(),
                        entry_views(flat@) == before + entry_views(entries@).take(j as int),
                    decreases entries.len() - j,
                {
                    let ghost earlier = entry_views(flat@);
                    let entry = &entries[j];
                    let copy = RootEntry {
                        name: entry.name.clone(),
                        path: entry.path.clone(),
                        is_dir: entry.is_dir,
                        has_index: entry.has_index,
                    };
                    flat.push(copy);
                    proof {
                        assert(copy@ == entries[j as int]@);
                        assert(entry_views(flat@) =~= earlier.push(copy@));
                        assert(before + entry_views(entries@).take(j + 1) =~= (before
                            + entry_views(entries@).take(j as int)).push(entries[j as int]@));
                    }
                    j += 1;
                }
                proof {
                    assert(entry_views(entries@).take(j as int) =~= entry_views(entries@));
                }
            },
        }
        i += 1;
    }
    proof {
        assert(roots@.take(i as int) =~= roots@);
    }
    flat
}

/// Builds the catalog from what was found under the search roots, given in
/// the order in which the roots are searched. A name gets into the catalog
/// where some directory of that name has an index document. All its
/// directories then use the first such document, whichever root it was
/// found under: a directory found after it is placed at once, one found
/// before it is set aside and placed after the sweep over all roots.
pub fn get_all_themes(roots: &Vec<RootListing>) -> (catalog: ThemeCatalog)
    ensures
        catalog.wf(),
        catalog.in_order_of(found(roots@)),
        forall|name: Seq<char>| #[trigger]
            catalog.locations(name) == cataloged(found(roots@), name),
{
    let entries = collect(roots);
    let ghost flat = entry_views(entries@);
    let mut rows: Vec<CatalogEntry> = Vec::new();
    let mut to_revisit: Vec<usize> = Vec::new();
    let mut k: usize = 0;
    proof {
        assert forall|name: Seq<char>| #[trigger] first_indexed(flat, name) >= 0 by {
            lemma_first_where_exists(flat, indexed_as(name));
        }
    }
    while k < entries.len()
        invariant
            k <= entries.len(),
            flat == entry_views(entries@),
            forall|a: int, b: int|
                0 <= a < b < rows.len() ==> (#[trigger] rows[a]).name@ != (#[trigger] rows[b]).name@,
            forall|pos: int| 0 <= pos < rows.len() ==> row_swept(flat, #[trigger] rows[pos], k as int),
            forall|a: int, b: int|
                0 <= a < b < rows.len() ==> first_indexed(flat, (#[trigger] rows[a]).name@)
                    < first_indexed(flat, (#[trigger] rows[b]).name@),
            forall|name: Seq<char>|
                !has_row(rows@, name) ==> #[trigger] first_indexed(flat, name) >= k,
            set_aside(flat, to_revisit@.map_values(|j: usize| j as int), k as int),
        decreases entries.len() - k,
    {
        let entry = &entries[k];
        let ghost name = entry.name@;
        let ghost old_rows = rows@;
        let ghost old_aside = to_revisit@.map_values(|j: usize| j as int);
        proof {
            assert(flat[k as int] == entry@);
            lemma_first_where_exists(flat, indexed_as(name));
        }
        let place = position(&rows, entry.name.as_str());
        match place {
            Some(pos) => {
                let earlier = rows[pos].index.clone();
                match Theme::from_path(
                    entry.path.as_str(),
                    entry.is_dir,
                    entry.has_index,
                    Some(&earlier),
                ) {
                    Some(theme) => {
                        let ghost views = theme_views(rows[pos as int].themes@);
                        rows[pos].themes.push(theme);
                        proof {
                            assert(theme_views(rows[pos as int].themes@) =~= views.push(theme@));
                            lemma_row_grows(flat, old_rows[pos as int], rows[pos as int], k as int);
                        }
                    },
                    None => {
                        proof {
                            lemma_row_keeps(flat, old_rows[pos as int], k as int);
                        }
                    },
                }
                proof {
                    assert(!is_pending(flat, k as int));
                }
            },
            None => {
                proof {
                    assert(first_indexed(flat, name) >= k);
                }
                match Theme::from_path(entry.path.as_str(), entry.is_dir, entry.has_index, None) {
                    Some(theme) => {
                        let mut themes: Vec<Theme> = Vec::new();
                        let index = theme.index.clone();
                        themes.push(theme);
                        let row = CatalogEntry { name: entry.name.clone(), index, themes };
                        rows.push(row);
                        proof {
                            assert(is_first_where(flat, indexed_as(name), k as int));
                            assert(theme_views(row.themes@) =~= seq![theme@]);
                            lemma_row_starts(flat, row, k as int);
                            assert(!is_pending(flat, k as int));
                        }
                    },
                    None => {
                        if entry.is_dir {
                            to_revisit.push(k);
                            proof {
                                assert(!indexed_as(name)(flat[k as int]));
                                assert(first_indexed(flat, name) > k);
                                assert(is_pending(flat, k as int));
                            }
                        } else {
                            proof {
                                assert(!is_pending(flat, k as int));
                            }
                        }
                    },
                }
            },
        }
        proof {
            let aside = to_revisit@.map_values(|j: usize| j as int);
            assert(rows.len() >= old_rows.len());
            assert forall|pos: int| 0 <= pos < old_rows.len() implies (#[trigger] rows[pos]).name@
                == old_rows[pos].name@ by {}
            assert forall|pos: int| 0 <= pos < rows.len() implies row_swept(
                flat,
                #[trigger] rows[pos],
                k + 1,
            ) by {
                if pos < old_rows.len() {
                    if place == Some(pos as usize) {
                    } else {
                        assert(rows[pos] == old_rows[pos]);
                        assert(row_swept(flat, old_rows[pos], k as int));
                        if old_rows[pos].name@ == name {
                            assert(has_row(old_rows, name));
                        }
                        lemma_row_keeps(flat, old_rows[pos], k as int);
                    }
                }
            }
            assert forall|name2: Seq<char>| !has_row(rows@, name2) implies #[trigger] first_indexed(
                flat,
                name2,
            ) >= k + 1 by {
                if has_row(old_rows, name2) {
                    let pos = choose|pos: int|
                        0 <= pos < old_rows.len() && (#[trigger] old_rows[pos]).name@ == name2;
                    assert(rows[pos].name@ == name2);
                }
                lemma_first_where_exists(flat, indexed_as(name2));
                if first_indexed(flat, name2) == k {
                    assert(indexed_as(name2)(flat[k as int]));
                    assert(name2 == name);
                    if place is Some {
                        assert(old_rows[place->0 as int].name@ == name);
                    } else {
                        assert(rows[rows.len() - 1].name@ == name);
                    }
                }
            }
            assert forall|a: int, b: int| 0 <= a < b < rows.len() implies (#[trigger] rows[a]).name@
                != (#[trigger] rows[b]).name@ by {
                if b >= old_rows.len() {
                    assert(rows[b].name@ == name);
                    if rows[a].name@ == name {
                        assert(old_rows[a].name@ == name);
                        assert(has_row(old_rows, name));
                    }
                } else {
                    assert(old_rows[a].name@ != old_rows[b].name@);
                }
            }
            assert forall|a: int, b: int| 0 <= a < b < rows.len() implies first_indexed(
                flat,
                (#[trigger] rows[a]).name@,
            ) < first_indexed(flat, (#[trigger] rows[b]).name@) by {
                assert(row_swept(flat, old_rows[a], k as int));
                assert(rows[a].name@ == old_rows[a].name@);
                if b >= old_rows.len() {
                    assert(row_swept(flat, rows[b], k + 1));
                    assert(rows[b].name@ == name);
                    assert(first_indexed(flat, name) >= k);
                } else {
                    assert(rows[b].name@ == old_rows[b].name@);
                    assert(first_indexed(flat, old_rows[a].name@) < first_indexed(
                        flat,
                        old_rows[b].name@,
                    ));
                }
            }
            assert(set_aside(flat, aside, k + 1)) by {
                if aside.len() > old_aside.len() {
                    assert(aside =~= old_aside.push(k as int));
                    assert forall|j: int| 0 <= j < k + 1 && #[trigger] is_pending(
                        flat,
                        j,
                    ) implies aside.contains(j) by {
                        if j < k {
                            assert(old_aside.contains(j));
                            let at = choose|at: int| 0 <= at < old_aside.len() && old_aside[at] == j;
                            assert(aside[at] == j);
                        } else {
                            assert(aside[aside.len() - 1] == j);
                        }
                    }
                } else {
                    assert(aside =~= old_aside);
                }
            }
        }
        k += 1;
    }
    let ghost aside = to_revisit@.map_values(|j: usize| j as int);
    proof {
        assert forall|pos: int| 0 <= pos < rows.len() implies row_revisited(
            flat,
            #[trigger] rows[pos],
            revisit_bound(flat, aside, 0),
        ) by {
            lemma_revisit_begins(flat, aside, rows[pos]);
        }
    }
    let mut t: usize = 0;
    while t < to_revisit.len()
        invariant
            t <= to_revisit.len(),
            k == entries.len(),
            flat == entry_views(entries@),
            aside == to_revisit@.map_values(|j: usize| j as int),
            set_aside(flat, aside, flat.len() as int),
            forall|a: int, b: int|
                0 <= a < b < rows.len() ==> (#[trigger] rows[a]).name@ != (#[trigger] rows[b]).name@,
            forall|pos: int|
                0 <= pos < rows.len() ==> row_revisited(
                    flat,
                    #[trigger] rows[pos],
                    revisit_bound(flat, aside, t as int),
                ),
            forall|a: int, b: int|
                0 <= a < b < rows.len() ==> first_indexed(flat, (#[trigger] rows[a]).name@)
                    < first_indexed(flat, (#[trigger] rows[b]).name@),
            forall|name: Seq<char>|
                !has_row(rows@, name) ==> #[trigger] first_indexed(flat, name) >= flat.len(),
        decreases to_revisit.len() - t,
    {
        let ghost old_rows = rows@;
        proof {
            assert(aside[t as int] == to_revisit[t as int]);
            assert(is_pending(flat, aside[t as int]));
        }
        let entry = &entries[to_revisit[t]];
        proof {
            assert(flat[aside[t as int]] == entry@);
        }
        let place = position(&rows, entry.name.as_str());
        match place {
            Some(pos) => {
                let earlier = rows[pos].index.clone();
                match Theme::from_path(
                    entry.path.as_str(),
                    entry.is_dir,
                    entry.has_index,
                    Some(&earlier),
                ) {
                    Some(theme) => {
                        let ghost views = theme_views(rows[pos as int].themes@);
                        rows[pos].themes.push(theme);
                        proof {
                            assert(theme_views(rows[pos as int].themes@) =~= views.push(theme@));
                            lemma_revisit_grows(
                                flat,
                                aside,
                                t as int,
                                old_rows[pos as int],
                                rows[pos as int],
                            );
                        }
                    },
                    None => {},
                }
            },
            None => {},
        }
        proof {
            assert forall|pos: int| 0 <= pos < old_rows.len() implies (#[trigger] rows[pos]).name@
                == old_rows[pos].name@ by {}
            assert forall|pos: int| 0 <= pos < rows.len() implies row_revisited(
                flat,
                #[trigger] rows[pos],
                revisit_bound(flat, aside, t + 1),
            ) by {
                if place == Some(pos as usize) {
                } else {
                    assert(rows[pos] == old_rows[pos]);
                    if old_rows[pos].name@ == entry.name@ {
                        assert(has_row(old_rows, entry.name@));
                    }
                    lemma_revisit_keeps(flat, aside, t as int, old_rows[pos]);
                }
            }
            assert forall|name2: Seq<char>| !has_row(rows@, name2) implies #[trigger] first_indexed(
                flat,
                name2,
            ) >= flat.len() by {
                if has_row(old_rows, name2) {
                    let pos = choose|pos: int|
                        0 <= pos < old_rows.len() && (#[trigger] old_rows[pos]).name@ == name2;
                    assert(rows[pos].name@ == name2);
                }
            }
            assert forall|a: int, b: int| 0 <= a < b < rows.len() implies (#[trigger] rows[a]).name@
                != (#[trigger] rows[b]).name@ by {
                assert(old_rows[a].name@ != old_rows[b].name@);
            }
            assert forall|a: int, b: int| 0 <= a < b < rows.len() implies first_indexed(
                flat,
                (#[trigger] rows[a]).name@,
            ) < first_indexed(flat, (#[trigger] rows[b]).name@) by {
                assert(rows[a].name@ == old_rows[a].name@);
                assert(rows[b].name@ == old_rows[b].name@);
                assert(first_indexed(flat, old_rows[a].name@) < first_indexed(
                    flat,
                    old_rows[b].name@,
                ));
            }
        }
        t += 1;
    }
    let catalog = ThemeCatalog { entries: rows };
    proof {
        assert(found(roots@) == flat);
        assert forall|pos: int| 0 <= pos < rows.len() implies {
            let row = #[trigger] catalog.entries[pos];
            &&& 0 <= first_indexed(flat, row.name@) < flat.len()
            &&& row.index@ == index_in(flat[first_indexed(flat, row.name@)].path)
        } by {
            assert(row_revisited(flat, rows[pos], revisit_bound(flat, aside, t as int)));
        }
        assert forall|name: Seq<char>| #[trigger]
            catalog.locations(name) == cataloged(flat, name) by {
            if has_row(rows@, name) {
                let pos = choose|pos: int| 0 <= pos < rows.len() && (#[trigger] rows[pos]).name@
                    == name;
                assert forall|q: int| 0 <= q < pos implies !called(name)(#[trigger] rows@[q]) by {
                    assert(rows[q].name@ != rows[pos].name@);
                }
                lemma_first_where_is(rows@, called(name), pos);
                assert(row_revisited(flat, rows[pos], revisit_bound(flat, aside, t as int)));
                lemma_revisit_ends(flat, rows[pos]);
            } else {
                assert forall|q: int| 0 <= q < rows.len() implies !called(name)(
                    #[trigger] rows@[q],
                ) by {
                    if rows[q].name@ == name {
                        assert(has_row(rows@, name));
                    }
                }
                lemma_first_where_is(rows@, called(name), rows.len() as int);
                assert(first_indexed(flat, name) >= flat.len());
            }
        }
    }
    catalog
}

} // verus!
