//! Directory listings and the rule that says which of their entries a search
//! finds.
//!
//! A listing is what a walk of a tree hands over: its entries in the order
//! of the walk, each with its path and its depth under the root, and `None`
//! in place of an entry that could not be read.

use vstd::prelude::*;
use crate::paths::{
    begins_with_dot,
    extension,
    file_name,
    is_hidden_name,
    last_index_of,
    lemma_extension_shape,
    lemma_last_index_of,
};
use crate::sequences::{lemma_filter_none, lemma_filter_push};
use crate::text::{lemma_split_on, split_on, split_text};

verus! {

/// One entry of a directory listing.
#[derive(Debug)]
pub struct WalkEntry {
    /// The entry's path: the root's path as it was given, and below the root
    /// one more segment for each step down.
    pub path: String,
    /// How many steps the entry lies below the root; 0 for the root.
    pub depth: usize,
    /// Whether the entry is a regular file.
    pub is_file: bool,
}

/// What the rules of the search read from a `WalkEntry`.
pub struct EntryModel {
    /// The path, as text.
    pub path: Seq<char>,
    /// The depth under the root.
    pub depth: nat,
    /// Whether the entry is a regular file.
    pub is_file: bool,
}

impl DeepView for WalkEntry {
    type V = EntryModel;

    open spec fn deep_view(&self) -> EntryModel {
        EntryModel { path: self.path@, depth: self.depth as nat, is_file: self.is_file }
    }
}

/// The segments of `path` that lie below the root: the names that the walk
/// went through on its way down from the root, the entry's own name last.
/// They are the last `depth` segments, or all of them where the path has no
/// more. The root itself has none: its own name, and what stands in front
/// of it, is where the search was sent and not what it came upon.
pub open spec fn walked_segments(path: Seq<char>, depth: nat) -> Seq<Seq<char>> {
    let all = split_on(path, '/');
    if all.len() <= depth {
        all
    } else {
        all.subrange(all.len() - depth, all.len() as int)
    }
}

/// Whether the walk reached the entry through a hidden name: below the root,
/// the entry itself or a directory above it has a name that begins with a
/// dot.
pub open spec fn is_hidden(entry: EntryModel) -> bool {
    exists|k: int|
        0 <= k < walked_segments(entry.path, entry.depth).len() && is_hidden_name(
            #[trigger] walked_segments(entry.path, entry.depth)[k],
        )
}

/// Whether a filter with the entries `exts` admits `path`: the path has an
/// extension, and that extension is one of the entries.
pub open spec fn admits(exts: Seq<Seq<char>>, path: Seq<char>) -> bool {
    extension(path) matches Some(ext) && exts.contains(ext)
}

/// Whether a search for `exts` finds `item`: a readable regular file that
/// was not reached through a hidden name and that the filter admits.
pub open spec fn is_found(item: Option<EntryModel>, exts: Seq<Seq<char>>) -> bool {
    &&& item matches Some(entry)
    &&& entry.is_file
    &&& !is_hidden(entry)
    &&& admits(exts, entry.path)
}

/// The test "a search for `exts` finds the item".
pub open spec fn finds(exts: Seq<Seq<char>>) -> spec_fn(Option<EntryModel>) -> bool {
    |item: Option<EntryModel>| is_found(item, exts)
}

/// The path of a readable entry.
pub open spec fn path_of() -> spec_fn(Option<EntryModel>) -> Seq<char> {
    |item: Option<EntryModel>| item->0.path
}

/// The paths of the entries that a search for `exts` finds in `items`, in
/// the order of the listing.
pub open spec fn matched_paths(items: Seq<Option<EntryModel>>, exts: Seq<Seq<char>>) -> Seq<
    Seq<char>,
> {
    items.filter(finds(exts)).map_values(path_of())
}

/// Whether the walk reached `entry` through a hidden name.
pub fn reached_through_hidden(entry: &WalkEntry) -> (hidden: bool)
    ensures
        hidden == is_hidden(entry.deep_view()),
{
    let parts = split_text(entry.path.as_str(), '/');
    let ghost all = split_on(entry.path@, '/');
    let ghost walked = walked_segments(entry.path@, entry.depth as nat);
    proof {
        lemma_split_on(entry.path@, '/');
    }
    let from: usize = if entry.depth >= parts.len() {
        0
    } else {
        parts.len() - entry.depth
    };
    assert(walked =~= all.subrange(from as int, all.len() as int));
    let mut k: usize = from;
    while k < parts.len()
        invariant
            from <= k <= parts.len(),
            parts.deep_view() == all,
            walked == walked_segments(entry.path@, entry.depth as nat),
            walked == all.subrange(from as int, all.len() as int),
            forall|j: int| 0 <= j < k - from ==> !is_hidden_name(#[trigger] walked[j]),
        decreases parts.len() - k,
    {
        assert(walked[k - from] == parts.deep_view()[k as int]);
        if begins_with_dot(parts[k].as_str()) {
            proof {
                let model = entry.deep_view();
                assert(is_hidden_name(walked_segments(model.path, model.depth)[k - from]));
            }
            return true;
        }
        k += 1;
    }
    false
}

/// The file name of a path is its last segment.
pub proof fn lemma_file_name_is_last_segment(path: Seq<char>)
    ensures
        split_on(path, '/').len() >= 1,
        split_on(path, '/').last() == file_name(path),
    decreases path.len(),
{
    lemma_split_on(path, '/');
    lemma_last_index_of(path, '/');
    if path.len() == 0 {
        assert(file_name(path) =~= Seq::<char>::empty());
    } else if path.last() == '/' {
        assert(file_name(path) =~= Seq::<char>::empty());
    } else {
        let front = path.drop_last();
        lemma_file_name_is_last_segment(front);
        lemma_last_index_of(front, '/');
        assert(last_index_of(path, '/') == last_index_of(front, '/'));
        assert(file_name(front).push(path.last()) =~= file_name(path));
    }
}

/// The root is never hidden, whatever its name and whatever stands in front
/// of it in its path.
pub proof fn lemma_root_is_not_hidden(entry: EntryModel)
    requires
        entry.depth == 0,
    ensures
        !is_hidden(entry),
{
    lemma_split_on(entry.path, '/');
}

/// An entry below the root whose own name begins with a dot was reached
/// through a hidden name, whatever lies above it.
pub proof fn lemma_hidden_name_hides(entry: EntryModel)
    requires
        entry.depth >= 1,
        is_hidden_name(file_name(entry.path)),
    ensures
        is_hidden(entry),
{
    lemma_file_name_is_last_segment(entry.path);
    let walked = walked_segments(entry.path, entry.depth);
    assert(walked[walked.len() - 1] == file_name(entry.path));
}

/// What is found in a listing that grew by one item.
pub proof fn lemma_matched_push(
    items: Seq<Option<EntryModel>>,
    last: Option<EntryModel>,
    exts: Seq<Seq<char>>,
)
    ensures
        matched_paths(items.push(last), exts) == if is_found(last, exts) {
            matched_paths(items, exts).push(last->0.path)
        } else {
            matched_paths(items, exts)
        },
{
    lemma_filter_push(items, last, finds(exts));
    if is_found(last, exts) {
        assert(items.filter(finds(exts)).push(last).map_values(path_of()) =~= items.filter(
            finds(exts),
        ).map_values(path_of()).push(last->0.path));
    }
}

/// A path is among those found exactly when it is the path of an item that
/// is found.
pub proof fn lemma_matched_membership(
    items: Seq<Option<EntryModel>>,
    exts: Seq<Seq<char>>,
    path: Seq<char>,
)
    ensures
        matched_paths(items, exts).contains(path) <==> exists|i: int|
            0 <= i < items.len() && is_found(#[trigger] items[i], exts) && items[i]->0.path == path,
    decreases items.len(),
{
    if items.len() == 0 {
        lemma_filter_none(items, finds(exts));
    } else {
        let front = items.drop_last();
        let last = items.last();
        assert(front.push(last) =~= items);
        lemma_matched_membership(front, exts, path);
        lemma_matched_push(front, last, exts);
        let before = matched_paths(front, exts);
        let now = matched_paths(items, exts);
        if now.contains(path) {
            let k = choose|k: int| 0 <= k < now.len() && now[k] == path;
            if k < before.len() {
                assert(before[k] == path);
                let i = choose|i: int|
                    0 <= i < front.len() && is_found(#[trigger] front[i], exts) && front[i]->0.path
                        == path;
                assert(items[i] == front[i]);
            } else {
                assert(is_found(items[items.len() - 1], exts));
            }
        }
        if exists|i: int|
            0 <= i < items.len() && is_found(#[trigger] items[i], exts) && items[i]->0.path
                == path {
            let i = choose|i: int|
                0 <= i < items.len() && is_found(#[trigger] items[i], exts) && items[i]->0.path
                    == path;
            if i < front.len() {
                assert(front[i] == items[i]);
                let k = choose|k: int| 0 <= k < before.len() && before[k] == path;
                assert(now[k] == path);
            } else {
                assert(now[now.len() - 1] == path);
            }
        }
    }
}

/// The filter admits every path found.
pub proof fn lemma_matches_admitted(items: Seq<Option<EntryModel>>, exts: Seq<Seq<char>>)
    ensures
        forall|k: int|
            0 <= k < matched_paths(items, exts).len() ==> admits(
                exts,
                #[trigger] matched_paths(items, exts)[k],
            ),
{
    let found = matched_paths(items, exts);
    assert forall|k: int| 0 <= k < found.len() implies admits(exts, #[trigger] found[k]) by {
        assert(found.contains(found[k]));
        lemma_matched_membership(items, exts, found[k]);
    }
}

/// Whether no two readable entries have the same path.
pub open spec fn distinct_paths(items: Seq<Option<EntryModel>>) -> bool {
    forall|i: int, j: int|
        0 <= i < j < items.len() && (#[trigger] items[i]) is Some && (#[trigger] items[j]) is Some
            ==> items[i]->0.path != items[j]->0.path
}

/// In a listing without repeated paths, a readable regular file is among the
/// paths found exactly when its extension is an entry of the filter and no
/// segment of its path below the root begins with a dot.
pub proof fn lemma_found_exactly_when_admitted(
    items: Seq<Option<EntryModel>>,
    exts: Seq<Seq<char>>,
    i: int,
)
    requires
        distinct_paths(items),
        0 <= i < items.len(),
        items[i] is Some,
        items[i]->0.is_file,
    ensures
        matched_paths(items, exts).contains(items[i]->0.path) <==> admits(exts, items[i]->0.path)
            && forall|k: int|
            0 <= k < walked_segments(items[i]->0.path, items[i]->0.depth).len() ==> !is_hidden_name(
                #[trigger] walked_segments(items[i]->0.path, items[i]->0.depth)[k],
            ),
{
    let path = items[i]->0.path;
    lemma_matched_membership(items, exts, path);
    if matched_paths(items, exts).contains(path) {
        let j = choose|j: int|
            0 <= j < items.len() && is_found(#[trigger] items[j], exts) && items[j]->0.path == path;
        assert(j == i);
    }
}

/// In a listing without repeated paths, no path is found twice.
pub proof fn lemma_matched_once(items: Seq<Option<EntryModel>>, exts: Seq<Seq<char>>)
    requires
        distinct_paths(items),
    ensures
        matched_paths(items, exts).no_duplicates(),
    decreases items.len(),
{
    if items.len() == 0 {
        lemma_filter_none(items, finds(exts));
    } else {
        let front = items.drop_last();
        let last = items.last();
        assert(front.push(last) =~= items);
        assert(distinct_paths(front)) by {
            assert forall|i: int, j: int|
                0 <= i < j < front.len() && (#[trigger] front[i]) is Some && (
                #[trigger] front[j]) is Some implies front[i]->0.path != front[j]->0.path by {
                assert(front[i] == items[i] && front[j] == items[j]);
            }
        }
        lemma_matched_once(front, exts);
        lemma_matched_push(front, last, exts);
        if is_found(last, exts) {
            let path = last->0.path;
            lemma_matched_membership(front, exts, path);
            if matched_paths(front, exts).contains(path) {
                let i = choose|i: int|
                    0 <= i < front.len() && is_found(#[trigger] front[i], exts) && front[i]->0.path
                        == path;
                assert(items[i] == front[i]);
                assert(items[items.len() - 1] == last);
            }
        }
    }
}

/// Whether every readable entry of `a` stands somewhere in `b`.
pub open spec fn lists_all_of(a: Seq<Option<EntryModel>>, b: Seq<Option<EntryModel>>) -> bool {
    forall|i: int| 0 <= i < a.len() && (#[trigger] a[i]) is Some ==> b.contains(a[i])
}

/// Two listings with the same readable entries give the same set of paths
/// found, in whatever order each of them lists the entries.
pub proof fn lemma_walk_order_is_irrelevant(
    a: Seq<Option<EntryModel>>,
    b: Seq<Option<EntryModel>>,
    exts: Seq<Seq<char>>,
)
    requires
        lists_all_of(a, b),
        lists_all_of(b, a),
    ensures
        matched_paths(a, exts).to_set() == matched_paths(b, exts).to_set(),
{
    let left = matched_paths(a, exts);
    let right = matched_paths(b, exts);
    assert forall|path: Seq<char>| left.contains(path) <==> right.contains(path) by {
        lemma_matched_membership(a, exts, path);
        lemma_matched_membership(b, exts, path);
        if left.contains(path) {
            let i = choose|i: int|
                0 <= i < a.len() && is_found(#[trigger] a[i], exts) && a[i]->0.path == path;
            let j = choose|j: int| 0 <= j < b.len() && b[j] == a[i];
            assert(is_found(b[j], exts));
        }
        if right.contains(path) {
            let j = choose|j: int|
                0 <= j < b.len() && is_found(#[trigger] b[j], exts) && b[j]->0.path == path;
            let i = choose|i: int| 0 <= i < a.len() && a[i] == b[j];
            assert(is_found(a[i], exts));
        }
    }
    assert(left.to_set() =~= right.to_set());
}

/// Nothing is found exactly when no item is found. So it is with an empty
/// listing, and with a filter that admits none of the files listed.
pub proof fn lemma_nothing_found(items: Seq<Option<EntryModel>>, exts: Seq<Seq<char>>)
    ensures
        matched_paths(items, exts).len() == 0 <==> forall|i: int|
            0 <= i < items.len() ==> !is_found(#[trigger] items[i], exts),
{
    let found = matched_paths(items, exts);
    if found.len() > 0 {
        assert(found.contains(found[0]));
        lemma_matched_membership(items, exts, found[0]);
    }
    if exists|i: int| 0 <= i < items.len() && is_found(#[trigger] items[i], exts) {
        let i = choose|i: int| 0 <= i < items.len() && is_found(#[trigger] items[i], exts);
        lemma_matched_membership(items, exts, items[i]->0.path);
    }
}

/// A filter whose entries are all empty admits no path: an extension is
/// never empty.
pub proof fn lemma_empty_entries_admit_nothing(exts: Seq<Seq<char>>, path: Seq<char>)
    requires
        forall|k: int| 0 <= k < exts.len() ==> (#[trigger] exts[k]).len() == 0,
    ensures
        !admits(exts, path),
{
    lemma_extension_shape(path);
}

/// The filter made from the empty text has one entry, the empty one, and
/// finds nothing in any listing.
pub proof fn lemma_empty_filter(items: Seq<Option<EntryModel>>)
    ensures
        split_on(Seq::<char>::empty(), '|') == seq![Seq::<char>::empty()],
        matched_paths(items, split_on(Seq::<char>::empty(), '|')).len() == 0,
{
    let exts = split_on(Seq::<char>::empty(), '|');
    assert forall|i: int| 0 <= i < items.len() implies !is_found(#[trigger] items[i], exts) by {
        if items[i] is Some {
            lemma_empty_entries_admit_nothing(exts, items[i]->0.path);
        }
    }
    lemma_nothing_found(items, exts);
}

} // verus!
