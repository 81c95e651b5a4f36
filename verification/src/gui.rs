//! The state behind the graphical interface: list builders, buffered
//! rows, sorted item lists and the widgets' shown values.

use vstd::prelude::*;
use crate::names::{compare_names, lemma_seq_lt_order, seq_lt, NameOrder};
use crate::fs_objects::{law_child_found, law_lookup_path, DirLookup, DirectoryData, FileSystemObject};
use crate::path_ext::{parent, spec_parent};
use crate::snapshot::SnapshotPersistentData;

verus! {

/// How many rows of a list may be selected (`NoSelection` stands for
/// the toolkit's `None`).
#[derive(Debug, Clone, Copy, PartialEq, Eq, Structural)]
pub enum SelectionMode {
    NoSelection,
    Single,
    Browse,
    Multiple,
}

/// A pop-up menu entry: its label and its tooltip.
#[derive(Debug, Clone, PartialEq, Eq)]
pub struct MenuItemSpec {
    pub label: String,
    pub tooltip: Option<String>,
}

/// The settings of a list of snapshots, gathered before it is built.
#[derive(Debug)]
pub struct SnapshotListViewBuilder {
    menu_items: Vec<(String, MenuItemSpec, u64)>,
    id_field: i32,
    selection_mode: SelectionMode,
}

impl SnapshotListViewBuilder {
    pub closed spec fn spec_menu_items(&self) -> Seq<(String, MenuItemSpec, u64)> {
        self.menu_items@
    }

    pub closed spec fn spec_id_field(&self) -> i32 {
        self.id_field
    }

    pub closed spec fn spec_selection_mode(&self) -> SelectionMode {
        self.selection_mode
    }

    /// No menu items, the first field as the id, single selection.
    pub fn new() -> (r: SnapshotListViewBuilder)
        ensures
            r.spec_menu_items().len() == 0,
            r.spec_id_field() == 0,
            r.spec_selection_mode() == SelectionMode::Single,
    {
        SnapshotListViewBuilder { menu_items: Vec::new(), id_field: 0, selection_mode: SelectionMode::Single }
    }

    /// Adds one menu item.
    pub fn menu_item(&mut self, menu_item: (String, MenuItemSpec, u64)) -> (r: &mut SnapshotListViewBuilder)
        ensures
            r.spec_menu_items() == old(self).spec_menu_items().push(menu_item),
            r.spec_id_field() == old(self).spec_id_field(),
            r.spec_selection_mode() == old(self).spec_selection_mode(),
            *final(self) == *final(r),
    {
        self.menu_items.push(menu_item);
        self
    }

    /// Adds the menu items, in order.
    pub fn menu_items(&mut self, menu_items: Vec<(String, MenuItemSpec, u64)>) -> (r: &mut SnapshotListViewBuilder)
        ensures
            r.spec_menu_items() == old(self).spec_menu_items() + menu_items@,
            r.spec_id_field() == old(self).spec_id_field(),
            r.spec_selection_mode() == old(self).spec_selection_mode(),
            *final(self) == *final(r),
    {
        let mut items = menu_items;
        self.menu_items.append(&mut items);
        self
    }

    /// Sets the field that identifies a row.
    pub fn id_field(&mut self, id_field: i32) -> (r: &mut SnapshotListViewBuilder)
        ensures
            r.spec_menu_items() == old(self).spec_menu_items(),
            r.spec_id_field() == id_field,
            r.spec_selection_mode() == old(self).spec_selection_mode(),
            *final(self) == *final(r),
    {
        self.id_field = id_field;
        self
    }

    /// Sets how many rows may be selected.
    pub fn selection_mode(&mut self, selection_mode: SelectionMode) -> (r: &mut SnapshotListViewBuilder)
        ensures
            r.spec_menu_items() == old(self).spec_menu_items(),
            r.spec_id_field() == old(self).spec_id_field(),
            r.spec_selection_mode() == selection_mode,
            *final(self) == *final(r),
    {
        self.selection_mode = selection_mode;
        self
    }
}

/// A source of rows for a list, with a digest that changes when they do.
/// What a source hands out may depend on more than the source itself
/// (what is on disk, say); `may_give` and `may_digest` are the outcomes
/// that the implementing type allows.
pub trait RowDataSource: Sized {
    type Row;

    /// Whether `rows` with `digest` is an outcome of `rows_and_digest`;
    /// by default every pair is.
    open spec fn may_give(&self, rows: Seq<Self::Row>, digest: Seq<u8>) -> bool {
        true
    }

    /// Whether `digest` is an outcome of `digest`; by default every
    /// digest is.
    open spec fn may_digest(&self, digest: Seq<u8>) -> bool {
        true
    }

    /// The rows and their digest.
    fn rows_and_digest(&self) -> (r: (Vec<Self::Row>, Vec<u8>))
        ensures
            self.may_give(r.0@, r.1@),
    ;

    /// The digest of the rows the source would give now.
    fn digest(&self) -> (r: Vec<u8>)
        ensures
            self.may_digest(r@),
    ;
}

/// The rows last taken from a source, with their digest.
#[derive(Debug)]
pub struct Rows<T> {
    pub rows: Vec<T>,
    pub rows_digest: Vec<u8>,
}

/// A source of rows with the rows last taken from it.
pub struct RowBuffer<R: RowDataSource> {
    row_data_source: R,
    row_data: Rows<R::Row>,
}

impl<R: RowDataSource> RowBuffer<R> {
    pub closed spec fn spec_source(&self) -> R {
        self.row_data_source
    }

    pub closed spec fn spec_rows(&self) -> Seq<R::Row> {
        self.row_data.rows@
    }

    pub closed spec fn spec_digest(&self) -> Seq<u8> {
        self.row_data.rows_digest@
    }

    /// A buffer of `raw_data` that holds no rows yet.
    pub fn new(raw_data: R) -> (r: RowBuffer<R>)
        ensures
            r.spec_source() == raw_data,
            r.spec_rows().len() == 0,
            r.spec_digest().len() == 0,
    {
        RowBuffer { row_data_source: raw_data, row_data: Rows { rows: Vec::new(), rows_digest: Vec::new() } }
    }

    /// The source.
    pub fn row_data_source(&self) -> (r: &R)
        ensures
            *r == self.spec_source(),
    {
        &self.row_data_source
    }

    /// Keeps `rows` and their `digest`.
    pub fn store_rows_and_digest(&mut self, rows: Vec<R::Row>, digest: Vec<u8>)
        ensures
            final(self).spec_source() == old(self).spec_source(),
            final(self).spec_rows() == rows@,
            final(self).spec_digest() == digest@,
    {
        self.row_data = Rows { rows, rows_digest: digest };
    }

    /// Takes the rows and their digest from the source anew: it keeps the
    /// rows and digest that the source gave.
    pub fn set_rows_and_digest(&mut self)
        ensures
            final(self).spec_source() == old(self).spec_source(),
            old(self).spec_source().may_give(final(self).spec_rows(), final(self).spec_digest()),
    {
        let (rows, digest) = self.row_data_source.rows_and_digest();
        self.store_rows_and_digest(rows, digest);
    }

    /// The rows last taken.
    pub fn get_rows(&self) -> (r: &Vec<R::Row>)
        ensures
            r@ == self.spec_rows(),
    {
        &self.row_data.rows
    }

    /// Whether the rows last taken have the digest `digest`.
    pub fn digest_matches(&self, digest: &Vec<u8>) -> (r: bool)
        ensures
            r == (self.spec_digest() == digest@),
    {
        let kept = &self.row_data.rows_digest;
        if kept.len() != digest.len() {
            return false;
        }
        let mut i: usize = 0;
        while i < kept.len()
            invariant
                kept@.len() == digest@.len(),
                *kept == self.row_data.rows_digest,
                i <= kept@.len(),
                forall|j: int| 0 <= j < i ==> kept@[j] == digest@[j],
            decreases kept@.len() - i,
        {
            if kept[i] != digest[i] {
                return false;
            }
            i = i + 1;
        }
        assert(kept@ =~= digest@);
        true
    }

    /// Whether the rows last taken are those the source would give now:
    /// whether the digest kept is the one the source gives.
    pub fn is_current(&self) -> (r: bool)
        ensures
            exists|d: Seq<u8>| #[trigger] self.spec_source().may_digest(d) && r == (self.spec_digest() == d),
    {
        let digest = self.row_data_source.digest();
        let r = self.digest_matches(&digest);
        assert(self.spec_source().may_digest(digest@) && r == (self.spec_digest() == digest@));
        r
    }
}

/// A list of items shown in a list view.
#[derive(Debug)]
pub struct SimpleList<T> {
    list_items: Vec<T>,
}

impl<T> SimpleList<T> {
    pub closed spec fn spec_items(&self) -> Seq<T> {
        self.list_items@
    }

    /// An empty list.
    pub fn new() -> (r: SimpleList<T>)
        ensures
            r.spec_items().len() == 0,
    {
        SimpleList { list_items: Vec::new() }
    }
}

impl SimpleList<String> {
    /// The rows of the list: one row of one text per item.
    pub fn repopulate(&self) -> (r: Vec<Vec<String>>)
        ensures
            r@.len() == self.spec_items().len(),
            forall|i: int| 0 <= i < r@.len() ==> (#[trigger] r@[i])@.len() == 1 && r@[i]@[0]@ == self.spec_items()[i]@,
    {
        let mut rows: Vec<Vec<String>> = Vec::new();
        let mut i: usize = 0;
        while i < self.list_items.len()
            invariant
                i <= self.spec_items().len(),
                rows@.len() == i,
                forall|j: int| 0 <= j < i ==> (#[trigger] rows@[j])@.len() == 1 && rows@[j]@[0]@ == self.spec_items()[j]@,
            decreases self.spec_items().len() - i,
        {
            let mut row: Vec<String> = Vec::new();
            row.push(self.list_items[i].clone());
            rows.push(row);
            i = i + 1;
        }
        rows
    }

    /// Adds a string and gives the rows that show the list.
    pub fn add_string(&mut self, string: &str) -> (r: Vec<Vec<String>>)
        ensures
            texts(final(self).spec_items()) == texts(old(self).spec_items()).push(string@),
            r@.len() == final(self).spec_items().len(),
            forall|i: int| 0 <= i < r@.len() ==> (#[trigger] r@[i])@.len() == 1 && r@[i]@[0]@ == final(self).spec_items()[i]@,
    {
        self.list_items.push(string.to_owned());
        assert(texts(self.spec_items()) =~= texts(old(self).spec_items()).push(string@));
        self.repopulate()
    }

    /// Adds a path and gives the rows that show the list.
    pub fn add_path_buf(&mut self, path: &str) -> (r: Vec<Vec<String>>)
        ensures
            texts(final(self).spec_items()) == texts(old(self).spec_items()).push(path@),
            r@.len() == final(self).spec_items().len(),
            forall|i: int| 0 <= i < r@.len() ==> (#[trigger] r@[i])@.len() == 1 && r@[i]@[0]@ == final(self).spec_items()[i]@,
    {
        self.add_string(path)
    }
}

/// The texts of a list of strings.
pub open spec fn texts(v: Seq<String>) -> Seq<Seq<char>> {
    v.map_values(|s: String| s@)
}

/// What the current directory bar shows: the path and whether the button
/// that goes up one level may be used.
#[derive(Debug, Clone)]
pub struct CurrentDirectoryManagerCore {
    pub label: String,
    pub button_sensitive: bool,
}

/// The current directory bar.
#[derive(Debug, Clone)]
pub struct CurrentDirectoryManager(pub CurrentDirectoryManagerCore);

impl CurrentDirectoryManager {
    /// The bar showing `path`, its button not yet usable.
    pub fn new(path: &str) -> (r: CurrentDirectoryManager)
        ensures
            r.0.label@ == path@,
            !r.0.button_sensitive,
    {
        CurrentDirectoryManager(CurrentDirectoryManagerCore { label: path.to_owned(), button_sensitive: false })
    }

    /// Shows `path`.
    pub fn set_curr_dir_path(&mut self, path: &str)
        ensures
            final(self).0.label@ == path@,
            final(self).0.button_sensitive == old(self).0.button_sensitive,
    {
        self.0.label = path.to_owned();
    }

    /// Lets the button be used, or not.
    pub fn set_sensitive(&mut self, sensitive: bool)
        ensures
            final(self).0.label == old(self).0.label,
            final(self).0.button_sensitive == sensitive,
    {
        self.0.button_sensitive = sensitive;
    }
}

/// Texts in strictly ascending order.
pub open spec fn strictly_ascending(s: Seq<Seq<char>>) -> bool {
    forall|i: int, j: int| 0 <= i < j < s.len() ==> seq_lt(#[trigger] s[i], #[trigger] s[j])
}

/// No text occurs twice.
pub open spec fn distinct_texts(s: Seq<Seq<char>>) -> bool {
    forall|i: int, j: int| 0 <= i < j < s.len() ==> #[trigger] s[i] != #[trigger] s[j]
}

/// Whether `v` holds the text `item`.
pub fn contains_text(v: &Vec<String>, item: &str) -> (r: bool)
    ensures
        r == texts(v@).contains(item@),
{
    let mut i: usize = 0;
    while i < v.len()
        invariant
            i <= v@.len(),
            forall|j: int| 0 <= j < i ==> v@[j]@ != item@,
        decreases v@.len() - i,
    {
        if compare_names(v[i].as_str(), item) == NameOrder::Equal {
            assert(texts(v@)[i as int] == item@);
            return true;
        }
        i = i + 1;
    }
    assert forall|j: int| 0 <= j < texts(v@).len() implies texts(v@)[j] != item@ by {
        assert(texts(v@)[j] == v@[j]@);
    }
    false
}

/// A list of texts kept unique and in ascending order, as a combo box
/// shows them, with the text that is active.
pub trait SortedUnique {
    /// The texts, in order.
    spec fn spec_text_items(&self) -> Seq<Seq<char>>;

    /// The active text, if any.
    spec fn spec_active_text(&self) -> Option<Seq<char>>;

    /// Where `item` is: `(true, i)` at position `i`; `(false, i)` when it
    /// would go before the item at `i`; `(false, -1)` when it would go
    /// last.
    fn get_item_index(&self, item: &str) -> (r: (bool, i32))
        ensures
            r.0 ==> 0 <= r.1 < self.spec_text_items().len() && self.spec_text_items()[r.1 as int] == item@,
            !r.0 ==> !self.spec_text_items().contains(item@),
            !r.0 && r.1 >= 0 ==> r.1 < self.spec_text_items().len()
                && (forall|j: int| 0 <= j < r.1 ==> seq_lt(#[trigger] self.spec_text_items()[j], item@))
                && (forall|j: int| r.1 <= j < self.spec_text_items().len() ==> seq_lt(item@, #[trigger] self.spec_text_items()[j])),
            !r.0 && r.1 < 0 ==> r.1 == -1 && forall|j: int| 0 <= j < self.spec_text_items().len()
                ==> seq_lt(#[trigger] self.spec_text_items()[j], item@),
    ;

    /// The texts, in order.
    fn get_text_items(&self) -> (r: Vec<String>)
        ensures
            texts(r@) == self.spec_text_items(),
            strictly_ascending(texts(r@)),
    ;

    /// Removes `item` when it is there; tells whether it was. The active
    /// text is cleared when it is removed.
    fn remove_text_item(&mut self, item: &str) -> (r: bool)
        ensures
            strictly_ascending(final(self).spec_text_items()),
            r == old(self).spec_text_items().contains(item@),
            forall|x: Seq<char>| #[trigger] final(self).spec_text_items().contains(x)
                <==> old(self).spec_text_items().contains(x) && x != item@,
            final(self).spec_active_text() == if r && old(self).spec_active_text() == Some(item@) {
                None
            } else {
                old(self).spec_active_text()
            },
    ;

    /// Puts `item`, which must not be there, at its place; gives where:
    /// its position, or -1 when it went last.
    fn insert_text_item(&mut self, item: &str) -> (r: i32)
        requires
            !old(self).spec_text_items().contains(item@),
            old(self).spec_text_items().len() + 1 < i32::MAX,
        ensures
            strictly_ascending(final(self).spec_text_items()),
            forall|x: Seq<char>| #[trigger] final(self).spec_text_items().contains(x)
                <==> old(self).spec_text_items().contains(x) || x == item@,
            r >= 0 ==> final(self).spec_text_items()[r as int] == item@,
            r < 0 ==> r == -1 && final(self).spec_text_items().last() == item@,
            final(self).spec_active_text() == old(self).spec_active_text(),
    ;

    /// Makes `item`, which must be there, the active text.
    fn set_active_text(&mut self, item: &str)
        requires
            old(self).spec_text_items().contains(item@),
        ensures
            final(self).spec_text_items() == old(self).spec_text_items(),
            final(self).spec_active_text() == Some(item@),
    ;

    /// Makes the texts those of `new_item_list`, which holds no text twice.
    /// The active text is cleared when it is among the texts removed.
    fn update_with(&mut self, new_item_list: &Vec<String>)
        requires
            distinct_texts(texts(new_item_list@)),
            new_item_list@.len() + 1 < i32::MAX,
        ensures
            strictly_ascending(final(self).spec_text_items()),
            forall|x: Seq<char>| #[trigger] final(self).spec_text_items().contains(x) <==> texts(new_item_list@).contains(x),
            final(self).spec_active_text() == match old(self).spec_active_text() {
                Some(a) => if old(self).spec_text_items().contains(a) && !texts(new_item_list@).contains(a) {
                    None
                } else {
                    Some(a)
                },
                None => None,
            },
    ;
}

/// The items of a combo box.
#[derive(Debug)]
pub struct SortedTextItems {
    items: Vec<String>,
    active: Option<String>,
}

/// Inserting `x` at its place keeps texts ascending.
proof fn lemma_insert_ascending(before: Seq<Seq<char>>, i: int, x: Seq<char>)
    requires
        strictly_ascending(before),
        0 <= i <= before.len(),
        forall|j: int| 0 <= j < i ==> seq_lt(#[trigger] before[j], x),
        forall|j: int| i <= j < before.len() ==> seq_lt(x, #[trigger] before[j]),
    ensures
        strictly_ascending(before.insert(i, x)),
        forall|y: Seq<char>| #[trigger] before.insert(i, x).contains(y) <==> before.contains(y) || y == x,
{
    lemma_seq_lt_order();
    let after = before.insert(i, x);
    assert forall|a: int, b: int| 0 <= a < b < after.len() implies seq_lt(#[trigger] after[a], #[trigger] after[b]) by {
        if b < i {
            assert(after[a] == before[a] && after[b] == before[b]);
        } else if b == i {
            assert(after[a] == before[a]);
        } else if a < i {
            assert(after[a] == before[a] && after[b] == before[b - 1]);
            assert(seq_lt(before[a], x));
        } else if a == i {
            assert(after[b] == before[b - 1]);
        } else {
            assert(after[a] == before[a - 1] && after[b] == before[b - 1]);
        }
    }
    assert forall|y: Seq<char>| #[trigger] after.contains(y) <==> before.contains(y) || y == x by {
        if after.contains(y) {
            let k = choose|k: int| 0 <= k < after.len() && after[k] == y;
            if k < i {
                assert(before[k] == y);
            } else if k > i {
                assert(before[k - 1] == y);
            }
        }
        if before.contains(y) {
            let k = choose|k: int| 0 <= k < before.len() && before[k] == y;
            if k < i {
                assert(after[k] == y);
            } else {
                assert(after[k + 1] == y);
            }
        }
        if y == x {
            assert(after[i] == y);
        }
    }
}

/// Removing the text at `i` keeps texts ascending and drops that text only.
proof fn lemma_remove_ascending(before: Seq<Seq<char>>, i: int)
    requires
        strictly_ascending(before),
        0 <= i < before.len(),
    ensures
        strictly_ascending(before.remove(i)),
        forall|y: Seq<char>| #[trigger] before.remove(i).contains(y) <==> before.contains(y) && y != before[i],
{
    lemma_seq_lt_order();
    let after = before.remove(i);
    assert forall|a: int, b: int| 0 <= a < b < after.len() implies seq_lt(#[trigger] after[a], #[trigger] after[b]) by {
        if a < i {
            if b >= i {
                assert(after[b] == before[b + 1]);
            }
        } else {
            assert(after[a] == before[a + 1] && after[b] == before[b + 1]);
        }
    }
    assert forall|y: Seq<char>| #[trigger] after.contains(y) <==> before.contains(y) && y != before[i] by {
        if after.contains(y) {
            let k = choose|k: int| 0 <= k < after.len() && after[k] == y;
            if k < i {
                assert(before[k] == y);
                assert(seq_lt(before[k], before[i]));
            } else {
                assert(before[k + 1] == y);
                assert(seq_lt(before[i], before[k + 1]));
            }
        }
        if before.contains(y) && y != before[i] {
            let k = choose|k: int| 0 <= k < before.len() && before[k] == y;
            if k < i {
                assert(after[k] == y);
            } else {
                assert(k != i);
                assert(after[k - 1] == y);
            }
        }
    }
}

/// A texts seq with a first `k` elements.
proof fn lemma_take_contains(s: Seq<Seq<char>>, k: int)
    requires
        0 <= k < s.len(),
    ensures
        forall|x: Seq<char>| #[trigger] s.take(k + 1).contains(x) <==> s.take(k).contains(x) || x == s[k],
{
    let t1 = s.take(k + 1);
    let t0 = s.take(k);
    assert forall|x: Seq<char>| #[trigger] t1.contains(x) <==> t0.contains(x) || x == s[k] by {
        if t1.contains(x) {
            let m = choose|m: int| 0 <= m < t1.len() && t1[m] == x;
            if m < k {
                assert(t0[m] == x);
            }
        }
        if t0.contains(x) {
            let m = choose|m: int| 0 <= m < t0.len() && t0[m] == x;
            assert(t1[m] == x);
        }
        if x == s[k] {
            assert(t1[k] == x);
        }
    }
}

/// A sequence without repeats whose texts all occur in `b` is no longer
/// than `b`.
proof fn lemma_subset_len(a: Seq<Seq<char>>, b: Seq<Seq<char>>)
    requires
        strictly_ascending(a),
        forall|x: Seq<char>| #[trigger] a.contains(x) ==> b.contains(x),
    ensures
        a.len() <= b.len(),
{
    lemma_seq_lt_order();
    assert(a.no_duplicates()) by {
        assert forall|i: int, j: int| 0 <= i < a.len() && 0 <= j < a.len() && i != j implies a[i] != a[j] by {
            if i < j {
                assert(seq_lt(a[i], a[j]));
            } else {
                assert(seq_lt(a[j], a[i]));
            }
        }
    }
    a.unique_seq_to_set();
    assert(a.to_set().subset_of(b.to_set())) by {
        assert forall|x: Seq<char>| a.to_set().contains(x) implies b.to_set().contains(x) by {
            assert(a.contains(x));
        }
    }
    vstd::set_lib::lemma_len_subset(a.to_set(), b.to_set());
    b.lemma_cardinality_of_set();
}

impl SortedTextItems {
    pub closed spec fn spec_items(&self) -> Seq<Seq<char>> {
        texts(self.items@)
    }

    pub closed spec fn spec_active(&self) -> Option<Seq<char>> {
        match self.active {
            Some(a) => Some(a@),
            None => None,
        }
    }

    /// The items are in strictly ascending order and their positions fit
    /// the toolkit's indices.
    #[verifier::type_invariant]
    spec fn sorted(&self) -> bool {
        &&& strictly_ascending(texts(self.items@))
        &&& self.items@.len() < i32::MAX
    }

    /// No items, none active.
    pub fn new() -> (r: SortedTextItems)
        ensures
            strictly_ascending(r.spec_items()),
            r.spec_items().len() == 0,
            r.spec_active() is None,
    {
        SortedTextItems { items: Vec::new(), active: None }
    }

    /// Where `item` is: `(true, i)` at position `i`; `(false, i)` when it
    /// would go before the item at `i`; `(false, -1)` when it would go
    /// last.
    pub fn get_item_index(&self, item: &str) -> (r: (bool, i32))
        ensures
            r.0 ==> 0 <= r.1 < self.spec_items().len() && self.spec_items()[r.1 as int] == item@,
            !r.0 ==> !self.spec_items().contains(item@),
            !r.0 && r.1 >= 0 ==> r.1 < self.spec_items().len()
                && (forall|j: int| 0 <= j < r.1 ==> seq_lt(#[trigger] self.spec_items()[j], item@))
                && (forall|j: int| r.1 <= j < self.spec_items().len() ==> seq_lt(item@, #[trigger] self.spec_items()[j])),
            !r.0 && r.1 < 0 ==> r.1 == -1 && forall|j: int| 0 <= j < self.spec_items().len()
                ==> seq_lt(#[trigger] self.spec_items()[j], item@),
    {
        proof {
            use_type_invariant(self);
            lemma_seq_lt_order();
        }
        let mut index: usize = 0;
        while index < self.items.len()
            invariant
                strictly_ascending(self.spec_items()),
                self.items@.len() < i32::MAX,
                index <= self.spec_items().len(),
                forall|j: int| 0 <= j < index ==> seq_lt(#[trigger] self.spec_items()[j], item@),
            decreases self.spec_items().len() - index,
        {
            assert(self.spec_items()[index as int] == self.items@[index as int]@);
            match compare_names(item, self.items[index].as_str()) {
                NameOrder::Equal => {
                    return (true, index as i32);
                },
                NameOrder::Less => {
                    proof {
                        lemma_seq_lt_order();
                        assert forall|j: int| index <= j < self.spec_items().len() implies seq_lt(item@, #[trigger] self.spec_items()[j]) by {
                            if j > index {
                                assert(seq_lt(self.spec_items()[index as int], self.spec_items()[j]));
                            }
                        }
                        assert forall|j: int| 0 <= j < self.spec_items().len() implies self.spec_items()[j] != item@ by {
                            if j < index {
                                assert(seq_lt(self.spec_items()[j], item@));
                            } else {
                                assert(seq_lt(item@, self.spec_items()[j]));
                            }
                        }
                    }
                    return (false, index as i32);
                },
                NameOrder::Greater => {
                    proof {
                        lemma_seq_lt_order();
                        assert(seq_lt(self.spec_items()[index as int], item@));
                    }
                },
            }
            index = index + 1;
        }
        proof {
            lemma_seq_lt_order();
            assert forall|j: int| 0 <= j < self.spec_items().len() implies self.spec_items()[j] != item@ by {
                assert(seq_lt(self.spec_items()[j], item@));
            }
        }
        (false, -1)
    }

    /// The items, in order.
    pub fn get_text_items(&self) -> (r: Vec<String>)
        ensures
            texts(r@) == self.spec_items(),
            strictly_ascending(texts(r@)),
    {
        proof { use_type_invariant(self); }
        let mut r: Vec<String> = Vec::new();
        let mut i: usize = 0;
        while i < self.items.len()
            invariant
                i <= self.items@.len(),
                texts(r@) == self.spec_items().take(i as int),
            decreases self.items@.len() - i,
        {
            r.push(self.items[i].clone());
            assert(self.spec_items().take(i + 1) =~= self.spec_items().take(i as int).push(self.items@[i as int]@));
            assert(texts(r@) =~= self.spec_items().take(i + 1));
            i = i + 1;
        }
        assert(self.spec_items().take(i as int) =~= self.spec_items());
        r
    }

    /// Removes `item` when it is there; tells whether it was. The active
    /// text is cleared when it is removed.
    pub fn remove_text_item(&mut self, item: &str) -> (r: bool)
        ensures
            strictly_ascending(final(self).spec_items()),
            r == old(self).spec_items().contains(item@),
            forall|x: Seq<char>| #[trigger] final(self).spec_items().contains(x)
                <==> old(self).spec_items().contains(x) && x != item@,
            final(self).spec_active() == if r && old(self).spec_active() == Some(item@) {
                None
            } else {
                old(self).spec_active()
            },
    {
        proof { use_type_invariant(&*self); }
        let (found, index) = self.get_item_index(item);
        if found {
            let i = index as usize;
            proof {
                lemma_remove_ascending(self.spec_items(), i as int);
                assert(texts(self.items@.remove(i as int)) =~= self.spec_items().remove(i as int));
            }
            let mut items: Vec<String> = Vec::new();
            std::mem::swap(&mut items, &mut self.items);
            items.remove(i);
            self.items = items;
            let clear = match &self.active {
                Some(a) => compare_names(a.as_str(), item) == NameOrder::Equal,
                None => false,
            };
            if clear {
                self.active = None;
            }
        }
        found
    }

    /// Puts `item`, which must not be there, at its place; gives where:
    /// its position, or -1 when it went last.
    pub fn insert_text_item(&mut self, item: &str) -> (r: i32)
        requires
            !old(self).spec_items().contains(item@),
            old(self).spec_items().len() + 1 < i32::MAX,
        ensures
            strictly_ascending(final(self).spec_items()),
            forall|x: Seq<char>| #[trigger] final(self).spec_items().contains(x)
                <==> old(self).spec_items().contains(x) || x == item@,
            r >= 0 ==> final(self).spec_items()[r as int] == item@,
            r < 0 ==> r == -1 && final(self).spec_items().last() == item@,
            final(self).spec_active() == old(self).spec_active(),
    {
        proof { use_type_invariant(&*self); }
        let (found, index) = self.get_item_index(item);
        let i: usize = if index < 0 { self.items.len() } else { index as usize };
        let new_item = item.to_owned();
        proof {
            lemma_insert_ascending(self.spec_items(), i as int, item@);
            assert(texts(self.items@.insert(i as int, new_item)) =~= self.spec_items().insert(i as int, item@));
        }
        let mut items: Vec<String> = Vec::new();
        std::mem::swap(&mut items, &mut self.items);
        items.insert(i, new_item);
        self.items = items;
        index
    }

    /// Makes `item`, which must be there, the active text.
    pub fn set_active_text(&mut self, item: &str)
        requires
            old(self).spec_items().contains(item@),
        ensures
            final(self).spec_items() == old(self).spec_items(),
            final(self).spec_active() == Some(item@),
    {
        proof { use_type_invariant(&*self); }
        self.active = Some(item.to_owned());
    }

    /// Makes the items those of `new_item_list`, which holds no text
    /// twice: the items not in it are removed, those of it not yet there
    /// are added.
    pub fn update_with(&mut self, new_item_list: &Vec<String>)
        requires
            distinct_texts(texts(new_item_list@)),
            new_item_list@.len() + 1 < i32::MAX,
        ensures
            strictly_ascending(final(self).spec_items()),
            forall|x: Seq<char>| #[trigger] final(self).spec_items().contains(x) <==> texts(new_item_list@).contains(x),
            final(self).spec_active() == match old(self).spec_active() {
                Some(a) => if old(self).spec_items().contains(a) && !texts(new_item_list@).contains(a) {
                    None
                } else {
                    Some(a)
                },
                None => None,
            },
    {
        let current_item_list = self.get_text_items();
        let ghost cur = texts(current_item_list@);
        let ghost new = texts(new_item_list@);
        let mut i: usize = 0;
        while i < current_item_list.len()
            invariant
                cur == texts(current_item_list@),
                new == texts(new_item_list@),
                i <= cur.len(),
                forall|x: Seq<char>| #[trigger] self.spec_items().contains(x)
                    <==> cur.contains(x) && (cur.take(i as int).contains(x) ==> new.contains(x)),
                cur == old(self).spec_items(),
                self.spec_active() == match old(self).spec_active() {
                    Some(a) => if cur.take(i as int).contains(a) && !new.contains(a) { None } else { Some(a) },
                    None => None,
                },
            decreases cur.len() - i,
        {
            let item = current_item_list[i].as_str();
            assert(cur[i as int] == item@);
            proof { lemma_take_contains(cur, i as int); }
            let keep = contains_text(new_item_list, item);
            if !keep {
                self.remove_text_item(item);
            }
            i = i + 1;
        }
        assert(cur.take(i as int) =~= cur);
        let mut j: usize = 0;
        while j < new_item_list.len()
            invariant
                cur == texts(current_item_list@),
                new == texts(new_item_list@),
                distinct_texts(new),
                new_item_list@.len() + 1 < i32::MAX,
                j <= new.len(),
                forall|x: Seq<char>| #[trigger] self.spec_items().contains(x)
                    <==> (cur.contains(x) && new.contains(x)) || new.take(j as int).contains(x),
                cur == old(self).spec_items(),
                self.spec_active() == match old(self).spec_active() {
                    Some(a) => if cur.contains(a) && !new.contains(a) { None } else { Some(a) },
                    None => None,
                },
            decreases new.len() - j,
        {
            let item = new_item_list[j].as_str();
            assert(new[j as int] == item@);
            proof {
                lemma_take_contains(new, j as int);
                use_type_invariant(&*self);
            }
            let present = contains_text(&current_item_list, item);
            if !present {
                proof {
                    assert(!new.take(j as int).contains(item@)) by {
                        if new.take(j as int).contains(item@) {
                            let t = new.take(j as int);
                            let k = choose|k: int| 0 <= k < t.len() && t[k] == item@;
                            assert(new[k] == new[j as int]);
                        }
                    }
                    assert(!self.spec_items().contains(item@));
                    assert forall|x: Seq<char>| #[trigger] self.spec_items().contains(x) implies new.contains(x) by {
                        if new.take(j as int).contains(x) {
                            let t = new.take(j as int);
                            let k = choose|k: int| 0 <= k < t.len() && t[k] == x;
                            assert(new[k] == x);
                        }
                    }
                    lemma_subset_len(self.spec_items(), new);
                }
                self.insert_text_item(item);
            }
            j = j + 1;
        }
        assert(new.take(j as int) =~= new);
        proof { use_type_invariant(&*self); }
    }
}

impl SortedUnique for SortedTextItems {
    open spec fn spec_text_items(&self) -> Seq<Seq<char>> {
        self.spec_items()
    }

    open spec fn spec_active_text(&self) -> Option<Seq<char>> {
        self.spec_active()
    }

    fn get_item_index(&self, item: &str) -> (bool, i32) {
        SortedTextItems::get_item_index(self, item)
    }

    fn get_text_items(&self) -> Vec<String> {
        SortedTextItems::get_text_items(self)
    }

    fn remove_text_item(&mut self, item: &str) -> bool {
        SortedTextItems::remove_text_item(self, item)
    }

    fn insert_text_item(&mut self, item: &str) -> i32 {
        SortedTextItems::insert_text_item(self, item)
    }

    fn set_active_text(&mut self, item: &str) {
        SortedTextItems::set_active_text(self, item)
    }

    fn update_with(&mut self, new_item_list: &Vec<String>) {
        SortedTextItems::update_with(self, new_item_list)
    }
}


/// A snapshot shown one directory at a time, with the bar that shows the
/// current directory.
#[derive(Debug)]
pub struct SnapshotManager {
    snapshot: SnapshotPersistentData,
    curr_dir_path: String,
    current_directory_manager: CurrentDirectoryManager,
}

impl SnapshotManager {
    pub closed spec fn spec_snapshot(&self) -> SnapshotPersistentData {
        self.snapshot
    }

    pub closed spec fn spec_curr_dir_path(&self) -> Seq<char> {
        self.curr_dir_path@
    }

    /// The snapshot is consistent and the current directory is in it.
    pub closed spec fn inv(&self) -> bool {
        &&& self.snapshot.wf()
        &&& self.snapshot.spec_root().lookup_subdir(self.curr_dir_path@) is Found
        &&& self.current_directory_manager.0.label@ == self.curr_dir_path@
        &&& self.current_directory_manager.0.button_sensitive == (self.curr_dir_path@ != self.snapshot.spec_root().spec_path())
    }

    /// The directory shown.
    pub open spec fn spec_curr_dir(&self) -> DirectoryData {
        self.spec_snapshot().spec_root().lookup_subdir(self.spec_curr_dir_path())->Found_0
    }

    /// Shows `snapshot` from its base directory; `None` when that
    /// directory is not in the snapshot's tree.
    pub fn new(snapshot: SnapshotPersistentData) -> (r: Option<SnapshotManager>)
        requires
            snapshot.wf(),
        ensures
            r is Some <==> snapshot.spec_root().lookup_subdir(snapshot.spec_base_dir_path()) is Found,
            r matches Some(m) ==> {
                &&& m.inv()
                &&& m.spec_snapshot() == snapshot
                &&& m.spec_curr_dir_path() == snapshot.spec_base_dir_path()
            },
    {
        let base_dir_path = snapshot.base_dir_path().to_owned();
        let found = snapshot.root_dir().find_subdir(base_dir_path.as_str()).is_ok();
        if !found {
            return None;
        }
        let mut bar = CurrentDirectoryManager::new(base_dir_path.as_str());
        let sensitive = compare_names(base_dir_path.as_str(), snapshot.root_dir_path()) != NameOrder::Equal;
        bar.set_sensitive(sensitive);
        Some(SnapshotManager { snapshot, curr_dir_path: base_dir_path, current_directory_manager: bar })
    }

    /// The directory shown.
    pub fn curr_dir(&self) -> (r: &DirectoryData)
        requires
            self.inv(),
        ensures
            *r == self.spec_curr_dir(),
            r.wf(),
    {
        proof { law_lookup_path(self.snapshot.spec_root(), self.curr_dir_path@); }
        match self.snapshot.root_dir().find_subdir(self.curr_dir_path.as_str()) {
            Ok(d) => d,
            Err(_) => self.snapshot.root_dir(),
        }
    }

    /// The rows of the list: the position and the name of each object of
    /// the directory shown.
    pub fn repopulate(&self) -> (r: Vec<(u32, String)>)
        requires
            self.inv(),
        ensures
            r@.len() == self.spec_curr_dir().spec_contents().len(),
            forall|i: int| 0 <= i < r@.len() ==> (#[trigger] r@[i]).0 == i as u32
                && r@[i].1@ == self.spec_curr_dir().spec_contents()[i].spec_name(),
    {
        let dir = self.curr_dir();
        let contents = dir.contents();
        let mut rows: Vec<(u32, String)> = Vec::new();
        let mut i: usize = 0;
        while i < contents.len()
            invariant
                dir.wf(),
                contents@ == dir.spec_contents(),
                i <= contents@.len(),
                rows@.len() == i,
                forall|j: int| 0 <= j < i ==> (#[trigger] rows@[j]).0 == j as u32
                    && rows@[j].1@ == contents@[j].spec_name(),
            decreases contents@.len() - i,
        {
            proof { crate::fs_objects::lemma_dir_has_name(*dir, i as int); }
            let name = contents[i].name();
            #[verifier::truncate]
            let index = i as u32;
            rows.push((index, name));
            i = i + 1;
        }
        rows
    }

    /// Shows the directory at `path`, which is in the snapshot.
    fn set_curr_dir_path(&mut self, path: &str)
        requires
            old(self).inv(),
            old(self).spec_snapshot().spec_root().lookup_subdir(path@) is Found,
        ensures
            final(self).inv(),
            final(self).spec_snapshot() == old(self).spec_snapshot(),
            final(self).spec_curr_dir_path() == path@,
    {
        self.curr_dir_path = path.to_owned();
        self.current_directory_manager.set_curr_dir_path(path);
        let sensitive = compare_names(path, self.snapshot.root_dir_path()) != NameOrder::Equal;
        self.current_directory_manager.set_sensitive(sensitive);
    }

    /// Goes up one level, when the directory above is in the snapshot.
    pub fn change_dir_to_parent(&mut self)
        requires
            old(self).inv(),
        ensures
            final(self).inv(),
            final(self).spec_snapshot() == old(self).spec_snapshot(),
            match spec_parent(old(self).spec_curr_dir_path()) {
                Some(p) => if old(self).spec_snapshot().spec_root().lookup_subdir(p) is Found {
                    final(self).spec_curr_dir_path() == p
                } else {
                    final(self).spec_curr_dir_path() == old(self).spec_curr_dir_path()
                },
                None => final(self).spec_curr_dir_path() == old(self).spec_curr_dir_path(),
            },
    {
        if let Some(parent_dir_path) = parent(self.curr_dir_path.as_str()) {
            if self.snapshot.root_dir().find_subdir(parent_dir_path.as_str()).is_ok() {
                self.set_curr_dir_path(parent_dir_path.as_str());
            }
        }
    }

    /// Goes into the object at `index` of the directory shown when it is a
    /// directory.
    pub fn process_double_click(&mut self, index: usize)
        requires
            old(self).inv(),
        ensures
            final(self).inv(),
            final(self).spec_snapshot() == old(self).spec_snapshot(),
            (index < old(self).spec_curr_dir().spec_contents().len()
                && old(self).spec_curr_dir().spec_contents()[index as int] is Directory)
                ==> final(self).spec_curr_dir() == old(self).spec_curr_dir().spec_contents()[index as int]->Directory_0,
            !(index < old(self).spec_curr_dir().spec_contents().len()
                && old(self).spec_curr_dir().spec_contents()[index as int] is Directory)
                ==> final(self).spec_curr_dir_path() == old(self).spec_curr_dir_path(),
    {
        let dir = self.curr_dir();
        if index < dir.contents().len() {
            if let FileSystemObject::Directory(d) = &dir.contents()[index] {
                let path = d.path().to_owned();
                proof {
                    law_child_found(self.snapshot.spec_root(), self.curr_dir_path@, index as int);
                }
                self.set_curr_dir_path(path.as_str());
            }
        }
    }
}

} // verus!
