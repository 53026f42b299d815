//! Searching a directory listing for the files whose extension is among
//! those asked for.

use vstd::prelude::*;
use vstd::seq_lib::to_multiset_contains;
use crate::index::{
    grouped,
    lemma_grouped_empty,
    lemma_grouped_push,
    lemma_grouping_round_trip,
    MatchIndex,
};
use crate::listing::{
    admits,
    distinct_paths,
    finds,
    lemma_matched_once,
    lemma_matched_push,
    lemma_matches_admitted,
    matched_paths,
    reached_through_hidden,
    EntryModel,
    WalkEntry,
};
use crate::paths::{extension, extension_of, file_name, file_name_chars};
use crate::sequences::{lemma_filter_none, lemma_filter_push};
use crate::text::{chars_of, contains_chars, contains_text, copy_strings, split_on, split_text};

verus! {

/// The test "the file name holds `keyword`".
pub open spec fn name_holds(keyword: Seq<char>) -> spec_fn(Seq<char>) -> bool {
    |path: Seq<char>| contains_text(file_name(path), keyword)
}

/// Whether `text` is one of the texts of `list`.
pub fn holds_text(list: &Vec<String>, text: &String) -> (found: bool)
    ensures
        found == list.deep_view().contains(text@),
{
    let mut i: usize = 0;
    while i < list.len()
        invariant
            i <= list.len(),
            forall|k: int| 0 <= k < i ==> list.deep_view()[k] != text@,
        decreases list.len() - i,
    {
        if list[i] == *text {
            assert(list.deep_view()[i as int] == text@);
            return true;
        }
        i += 1;
    }
    false
}

/// A search for files by extension: the root to search under, the
/// extensions asked for, and the paths found by the last search.
#[derive(Debug)]
pub struct Finder {
    path: String,
    exts: Vec<String>,
    all: Vec<String>,
}

impl Finder {
    /// The root to search under.
    pub closed spec fn root(&self) -> Seq<char> {
        self.path@
    }

    /// The entries of the extension filter, in the order given.
    pub closed spec fn extensions(&self) -> Seq<Seq<char>> {
        self.exts.deep_view()
    }

    /// The paths found by the last search, in listing order.
    pub closed spec fn found(&self) -> Seq<Seq<char>> {
        self.all.deep_view()
    }

    /// A search under `path` for the extensions that `extension_filter` lists
    /// between `|`. Each part between two bars is one entry, taken as it
    /// stands: nothing is trimmed, no case is changed, and an empty part is an
    /// empty entry.
    pub fn new(path: String, extension_filter: String) -> (finder: Finder)
        ensures
            finder.root() == path@,
            finder.extensions() == split_on(extension_filter@, '|'),
            finder.found() == Seq::<Seq<char>>::empty(),
    {
        let exts = split_text(extension_filter.as_str(), '|');
        let finder = Finder { path, exts, all: Vec::new() };
        assert(finder.all.deep_view() =~= Seq::<Seq<char>>::empty());
        finder
    }

    /// The root to search under.
    pub fn path(&self) -> (path: &String)
        ensures
            path@ == self.root(),
    {
        &self.path
    }

    /// The entries of the extension filter.
    pub fn exts(&self) -> (exts: &Vec<String>)
        ensures
            exts.deep_view() == self.extensions(),
    {
        &self.exts
    }

    /// Whether the filter admits `path`.
    pub fn accepts(&self, path: &str) -> (admitted: bool)
        ensures
            admitted == admits(self.extensions(), path@),
    {
        match extension_of(path) {
            Some(ext) => holds_text(&self.exts, &ext),
            None => false,
        }
    }

    /// Searches the listing `items` of the tree under the root. An entry is
    /// found when it is a readable regular file, no name below the root on
    /// the way to it begins with a dot, and the filter admits its path. The
    /// name of the root and what stands in front of it do not count. The
    /// paths found replace those of an earlier search; the result groups
    /// them by extension, and is an error exactly when nothing was found.
    pub fn find(&mut self, items: &Vec<Option<WalkEntry>>) -> (result: Result<MatchIndex, ()>)
        ensures
            final(self).root() == old(self).root(),
            final(self).extensions() == old(self).extensions(),
            final(self).found() == matched_paths(items.deep_view(), old(self).extensions()),
            result is Err <==> final(self).found().len() == 0,
            result matches Ok(index) ==> index@ == grouped(final(self).found()),
    {
        let ghost listing = items.deep_view();
        let ghost exts = self.exts.deep_view();
        let mut index = MatchIndex::new();
        let mut all: Vec<String> = Vec::new();
        let mut i: usize = 0;
        proof {
            lemma_filter_none(listing.take(0), finds(exts));
            assert(all.deep_view() =~= matched_paths(listing.take(0), exts));
            assert(index@ =~= grouped(all.deep_view()));
        }
        while i < items.len()
            invariant
                i <= items.len(),
                listing == items.deep_view(),
                exts == self.exts.deep_view(),
                all.deep_view() == matched_paths(listing.take(i as int), exts),
                index@ == grouped(all.deep_view()),
            decreases items.len() - i,
        {
            proof {
                lemma_matched_push(listing.take(i as int), listing[i as int], exts);
                assert(listing.take(i + 1) =~= listing.take(i as int).push(listing[i as int]));
            }
            match &items[i] {
                None => {},
                Some(entry) => {
                    if entry.is_file && !reached_through_hidden(entry) {
                        match extension_of(entry.path.as_str()) {
                            Some(ext) => {
                                if holds_text(&self.exts, &ext) {
                                    let ghost flat = all.deep_view();
                                    proof {
                                        lemma_grouped_push(flat, entry.path@);
                                    }
                                    all.push(entry.path.clone());
                                    index.add(ext, entry.path.clone());
                                    assert(all.deep_view() =~= flat.push(entry.path@));
                                }
                            },
                            None => {},
                        }
                    }
                },
            }
            i += 1;
        }
        self.all = all;
        proof {
            assert(listing.take(items.len() as int) =~= listing);
            lemma_matches_admitted(listing, exts);
            lemma_grouped_empty(self.all.deep_view());
        }
        if index.is_empty() {
            Err(())
        } else {
            Ok(index)
        }
    }

    /// The paths found by the last search, in listing order.
    pub fn get_all(&self) -> (all: Vec<String>)
        ensures
            all.deep_view() == self.found(),
    {
        copy_strings(&self.all)
    }

    /// Those of the paths found whose file name holds `keyword`, in listing
    /// order. The search itself is left as it was.
    pub fn filter(&mut self, keyword: &str) -> (kept: Vec<String>)
        ensures
            *final(self) == *old(self),
            kept.deep_view() == old(self).found().filter(name_holds(keyword@)),
    {
        let needle = chars_of(keyword);
        let ghost flat = self.all.deep_view();
        let mut kept: Vec<String> = Vec::new();
        let mut i: usize = 0;
        assert(flat.take(0) =~= Seq::<Seq<char>>::empty());
        assert(kept.deep_view() =~= Seq::<Seq<char>>::empty());
        proof {
            lemma_filter_none(flat.take(0), name_holds(keyword@));
        }
        while i < self.all.len()
            invariant
                i <= self.all.len(),
                flat == self.all.deep_view(),
                needle@ == keyword@,
                kept.deep_view() == flat.take(i as int).filter(name_holds(keyword@)),
            decreases self.all.len() - i,
        {
            let ghost before = kept.deep_view();
            proof {
                lemma_filter_push(flat.take(i as int), flat[i as int], name_holds(keyword@));
                assert(flat.take(i + 1) =~= flat.take(i as int).push(flat[i as int]));
            }
            let name = file_name_chars(self.all[i].as_str());
            if contains_chars(&name, &needle) {
                kept.push(self.all[i].clone());
                assert(kept.deep_view() =~= before.push(flat[i as int]));
            }
            i += 1;
        }
        assert(flat.take(self.all.len() as int) =~= flat);
        kept
    }
}

/// What a search that found nothing says.
pub open spec fn nothing_found() -> Seq<char> {
    "No files founded in the specified dir"@
}

/// The paths that a search of the listing `items` for the extensions listed
/// in `extensions` finds, or a message where it finds none.
pub fn find(path: String, extensions: String, items: &Vec<Option<WalkEntry>>) -> (result: Result<
    Vec<String>,
    String,
>)
    ensures
        result is Err <==> matched_paths(items.deep_view(), split_on(extensions@, '|')).len() == 0,
        result matches Ok(paths) ==> paths.deep_view() == matched_paths(
            items.deep_view(),
            split_on(extensions@, '|'),
        ),
        result matches Err(message) ==> message@ == nothing_found(),
{
    let mut find_obj = Finder::new(path, extensions);
    match find_obj.find(items) {
        Err(_) => Err("No files founded in the specified dir".to_owned()),
        Ok(_) => Ok(find_obj.get_all()),
    }
}

/// What a search of a listing without repeated paths keeps and what it
/// returns hold the same paths, each once: the flat list holds no path
/// twice; a path that stands under a key of the grouping has that key as its
/// extension, and stands once under it and once in the flat list; and every
/// path of the flat list stands under the key of its extension.
pub proof fn lemma_round_trip(items: Seq<Option<EntryModel>>, exts: Seq<Seq<char>>)
    requires
        distinct_paths(items),
    ensures
        ({
            let flat = matched_paths(items, exts);
            let index = grouped(flat);
            &&& flat.no_duplicates()
            &&& forall|ext: Seq<char>, k: int|
                index.dom().contains(ext) && 0 <= k < index[ext].len() ==> {
                    let path = #[trigger] index[ext][k];
                    &&& extension(path) == Some(ext)
                    &&& index[ext].to_multiset().count(path) == 1
                    &&& flat.to_multiset().count(path) == 1
                }
            &&& forall|k: int|
                0 <= k < flat.len() ==> {
                    &&& extension(#[trigger] flat[k]) is Some
                    &&& index.dom().contains(extension(flat[k])->0)
                    &&& index[extension(flat[k])->0].contains(flat[k])
                }
        }),
{
    let flat = matched_paths(items, exts);
    let index = grouped(flat);
    lemma_matched_once(items, exts);
    lemma_matches_admitted(items, exts);
    lemma_grouping_round_trip(flat);
    flat.lemma_multiset_has_no_duplicates();
    assert forall|ext: Seq<char>, k: int|
        index.dom().contains(ext) && 0 <= k < index[ext].len() implies {
        let path = #[trigger] index[ext][k];
        &&& extension(path) == Some(ext)
        &&& index[ext].to_multiset().count(path) == 1
        &&& flat.to_multiset().count(path) == 1
    } by {
        let path = index[ext][k];
        assert(index[ext].contains(path));
        to_multiset_contains(index[ext], path);
        assert(index[ext].to_multiset().count(path) > 0);
        to_multiset_contains(flat, path);
    }
    assert forall|k: int| 0 <= k < flat.len() implies extension(#[trigger] flat[k]) is Some
        && index.dom().contains(extension(flat[k])->0) && index[extension(flat[k])->0].contains(
        flat[k],
    ) by {
        let path = flat[k];
        let ext = extension(path)->0;
        assert(flat.contains(path));
        to_multiset_contains(flat, path);
        to_multiset_contains(index[ext], path);
        assert(index[ext].to_multiset().count(path) == flat.to_multiset().count(path));
    }
}

} // verus!
