//! The files found, grouped by extension.

use vstd::prelude::*;
use crate::paths::extension;
use crate::sequences::{lemma_filter_count, lemma_filter_none, lemma_filter_push};

verus! {

/// The test "has the extension `ext`".
pub open spec fn has_extension(ext: Seq<char>) -> spec_fn(Seq<char>) -> bool {
    |path: Seq<char>| extension(path) == Some(ext)
}

/// The grouping of `flat` by extension: its keys are the extensions that
/// occur among the paths, and each key holds the paths with that extension
/// in the order of `flat`.
pub open spec fn grouped(flat: Seq<Seq<char>>) -> Map<Seq<char>, Seq<Seq<char>>> {
    Map::new(
        |ext: Seq<char>|
            exists|i: int| 0 <= i < flat.len() && extension(#[trigger] flat[i]) == Some(ext),
        |ext: Seq<char>| flat.filter(has_extension(ext)),
    )
}

/// How the grouping changes when one more path is found.
pub(crate) proof fn lemma_grouped_push(flat: Seq<Seq<char>>, path: Seq<char>)
    requires
        extension(path) is Some,
    ensures
        grouped(flat.push(path)) == grouped(flat).insert(
            extension(path)->0,
            if grouped(flat).dom().contains(extension(path)->0) {
                grouped(flat)[extension(path)->0].push(path)
            } else {
                seq![path]
            },
        ),
{
    let key = extension(path)->0;
    let more = flat.push(path);
    let goal = grouped(flat).insert(
        key,
        if grouped(flat).dom().contains(key) {
            grouped(flat)[key].push(path)
        } else {
            seq![path]
        },
    );
    assert forall|ext: Seq<char>| grouped(more).dom().contains(ext) <==> goal.dom().contains(
        ext,
    ) by {
        if grouped(more).dom().contains(ext) {
            let i = choose|i: int|
                0 <= i < more.len() && extension(#[trigger] more[i]) == Some(ext);
            if i < flat.len() {
                assert(extension(flat[i]) == Some(ext));
            }
        }
        if goal.dom().contains(ext) {
            if ext == key {
                assert(extension(more[flat.len() as int]) == Some(ext));
            } else {
                let i = choose|i: int|
                    0 <= i < flat.len() && extension(#[trigger] flat[i]) == Some(ext);
                assert(extension(more[i]) == Some(ext));
            }
        }
    }
    assert forall|ext: Seq<char>| grouped(more).dom().contains(ext) implies grouped(more)[ext]
        == goal[ext] by {
        lemma_filter_push(flat, path, has_extension(ext));
        if ext == key && !grouped(flat).dom().contains(key) {
            assert forall|i: int| 0 <= i < flat.len() implies !has_extension(key)(
                #[trigger] flat[i],
            ) by {}
            lemma_filter_none(flat, has_extension(key));
            assert(Seq::<Seq<char>>::empty().push(path) =~= seq![path]);
        }
    }
    assert(grouped(more) =~= goal);
}

/// A grouping is empty exactly when it groups no path with an extension.
pub(crate) proof fn lemma_grouped_empty(flat: Seq<Seq<char>>)
    requires
        forall|k: int| 0 <= k < flat.len() ==> extension(#[trigger] flat[k]) is Some,
    ensures
        grouped(flat) == Map::<Seq<char>, Seq<Seq<char>>>::empty() <==> flat.len() == 0,
{
    if flat.len() == 0 {
        assert(grouped(flat) =~= Map::<Seq<char>, Seq<Seq<char>>>::empty());
    } else {
        assert(grouped(flat).dom().contains(extension(flat[0])->0));
    }
}

/// The grouping holds what the flat list holds, and the other way round. Its
/// keys are the extensions that occur in the flat list. Under the key of its
/// own extension a path stands as often as in the flat list, so once where
/// the flat list holds it once; under any other key it does not stand.
pub proof fn lemma_grouping_round_trip(flat: Seq<Seq<char>>)
    ensures
        forall|ext: Seq<char>|
            grouped(flat).dom().contains(ext) <==> exists|k: int|
                0 <= k < flat.len() && extension(#[trigger] flat[k]) == Some(ext),
        forall|ext: Seq<char>, path: Seq<char>|
            grouped(flat).dom().contains(ext) ==> #[trigger] grouped(flat)[ext].to_multiset().count(
                path,
            ) == if extension(path) == Some(ext) {
                flat.to_multiset().count(path)
            } else {
                0
            },
{
    assert forall|ext: Seq<char>, path: Seq<char>|
        grouped(flat).dom().contains(ext) implies #[trigger] grouped(flat)[ext].to_multiset().count(
        path,
    ) == if extension(path) == Some(ext) {
        flat.to_multiset().count(path)
    } else {
        0
    } by {
        lemma_filter_count(flat, has_extension(ext), path);
    }
}

/// The paths found under one extension.
#[derive(Debug)]
struct ExtGroup {
    ext: String,
    paths: Vec<String>,
}

/// The files found, grouped by extension. No extension occurs twice.
#[derive(Debug)]
pub struct MatchIndex {
    groups: Vec<ExtGroup>,
}

impl View for MatchIndex {
    type V = Map<Seq<char>, Seq<Seq<char>>>;

    /// From each extension to the paths found with it, in the order in which
    /// they were added.
    closed spec fn view(&self) -> Map<Seq<char>, Seq<Seq<char>>> {
        Map::new(
            |ext: Seq<char>| self.holds(ext),
            |ext: Seq<char>| self.groups@[self.position(ext)].paths.deep_view(),
        )
    }
}

impl MatchIndex {
    /// No extension has two groups.
    #[verifier::type_invariant]
    spec fn distinct_keys(&self) -> bool {
        forall|i: int, j: int|
            0 <= i < j < self.groups@.len() ==> (#[trigger] self.groups@[i]).ext@ != (
            #[trigger] self.groups@[j]).ext@
    }

    /// Whether the group at `i` is that of `ext`.
    spec fn key_at(&self, i: int, ext: Seq<char>) -> bool {
        0 <= i < self.groups@.len() && self.groups@[i].ext@ == ext
    }

    /// Whether `ext` has a group.
    spec fn holds(&self, ext: Seq<char>) -> bool {
        exists|i: int| self.key_at(i, ext)
    }

    /// Where the group of `ext` stands.
    spec fn position(&self, ext: Seq<char>) -> int {
        choose|i: int| self.key_at(i, ext)
    }

    /// An index that holds nothing.
    pub fn new() -> (index: MatchIndex)
        ensures
            index@ == Map::<Seq<char>, Seq<Seq<char>>>::empty(),
    {
        let index = MatchIndex { groups: Vec::new() };
        assert(index@ =~= Map::<Seq<char>, Seq<Seq<char>>>::empty());
        index
    }

    /// Whether the index holds nothing.
    pub fn is_empty(&self) -> (empty: bool)
        ensures
            empty == (self@ == Map::<Seq<char>, Seq<Seq<char>>>::empty()),
    {
        let empty = self.groups.len() == 0;
        proof {
            if empty {
                assert(self@ =~= Map::<Seq<char>, Seq<Seq<char>>>::empty());
            } else {
                assert(self.key_at(0, self.groups@[0].ext@));
                assert(self@.dom().contains(self.groups@[0].ext@));
            }
        }
        empty
    }

    /// Where the group of `ext` stands, where there is one.
    fn find_key(&self, ext: &String) -> (found: Option<usize>)
        ensures
            match found {
                Some(g) => self.key_at(g as int, ext@) && self.position(ext@) == g,
                None => !self.holds(ext@),
            },
    {
        proof {
            use_type_invariant(self);
        }
        let mut i: usize = 0;
        while i < self.groups.len()
            invariant
                self.distinct_keys(),
                i <= self.groups.len(),
                forall|k: int| 0 <= k < i ==> !self.key_at(k, ext@),
            decreases self.groups.len() - i,
        {
            if self.groups[i].ext == *ext {
                assert(self.key_at(i as int, ext@));
                assert(self.key_at(self.position(ext@), ext@));
                return Some(i);
            }
            i += 1;
        }
        None
    }

    /// The paths found with the extension `ext`, where there are any.
    pub fn get(&self, ext: &String) -> (found: Option<&Vec<String>>)
        ensures
            match found {
                Some(paths) => self@.dom().contains(ext@) && paths.deep_view() == self@[ext@],
                None => !self@.dom().contains(ext@),
            },
    {
        match self.find_key(ext) {
            Some(g) => Some(&self.groups[g].paths),
            None => None,
        }
    }

    /// The extensions of the index, each once, in the order in which they
    /// were first added.
    pub fn extensions(&self) -> (keys: Vec<String>)
        ensures
            keys.deep_view().no_duplicates(),
            forall|ext: Seq<char>| keys.deep_view().contains(ext) <==> self@.dom().contains(ext),
    {
        proof {
            use_type_invariant(self);
        }
        let mut keys: Vec<String> = Vec::new();
        let mut i: usize = 0;
        while i < self.groups.len()
            invariant
                i <= self.groups.len(),
                keys.len() == i,
                forall|k: int| 0 <= k < i ==> keys[k]@ == self.groups@[k].ext@,
            decreases self.groups.len() - i,
        {
            keys.push(self.groups[i].ext.clone());
            i += 1;
        }
        proof {
            let texts = keys.deep_view();
            assert forall|ext: Seq<char>| texts.contains(ext) <==> self@.dom().contains(ext) by {
                if texts.contains(ext) {
                    let k = choose|k: int| 0 <= k < texts.len() && texts[k] == ext;
                    assert(self.key_at(k, ext));
                }
                if self@.dom().contains(ext) {
                    let k = self.position(ext);
                    assert(texts[k] == ext);
                }
            }
        }
        keys
    }

    /// Adds `path` behind the paths found so far with the extension `ext`.
    pub fn add(&mut self, ext: String, path: String)
        ensures
            final(self)@ == old(self)@.insert(
                ext@,
                if old(self)@.dom().contains(ext@) {
                    old(self)@[ext@].push(path@)
                } else {
                    seq![path@]
                },
            ),
    {
        proof {
            use_type_invariant(&*self);
        }
        let ghost before = *self;
        let ghost key = ext@;
        let ghost added = path@;
        let found = self.find_key(&ext);
        let mut groups: Vec<ExtGroup> = Vec::new();
        core::mem::swap(&mut self.groups, &mut groups);
        match found {
            Some(g) => {
                let ghost prior = groups@[g as int].paths.deep_view();
                groups[g].paths.push(path);
                self.groups = groups;
                proof {
                    assert(self.groups@[g as int].paths.deep_view() =~= prior.push(added));
                    assert forall|i: int, e: Seq<char>| self.key_at(i, e) <==> before.key_at(
                        i,
                        e,
                    ) by {}
                    assert forall|e: Seq<char>| self.holds(e) <==> before.holds(e) by {
                        if self.holds(e) {
                            assert(before.key_at(self.position(e), e));
                        }
                        if before.holds(e) {
                            assert(self.key_at(before.position(e), e));
                        }
                    }
                    assert forall|e: Seq<char>| self.holds(e) implies self.position(e)
                        == before.position(e) by {
                        let i = self.position(e);
                        let j = before.position(e);
                        assert(before.key_at(i, e));
                        assert(before.key_at(j, e));
                    }
                    assert(before.holds(key));
                    assert(before@[key] == prior);
                    let goal = before@.insert(key, prior.push(added));
                    assert forall|e: Seq<char>| self@.dom().contains(e) implies #[trigger] self@[e]
                        == goal[e] by {
                        let i = self.position(e);
                        assert(self.key_at(i, e));
                        if e != key {
                            assert(i != g);
                        }
                    }
                    assert(self@ =~= goal);
                }
            },
            None => {
                let mut paths: Vec<String> = Vec::new();
                paths.push(path);
                groups.push(ExtGroup { ext, paths });
                proof {
                    let g = before.groups@.len() as int;
                    assert forall|i: int, j: int| 0 <= i < j < groups@.len() implies (
                    #[trigger] groups@[i]).ext@ != (#[trigger] groups@[j]).ext@ by {
                        if j == g {
                            assert(!before.key_at(i, key));
                        }
                    }
                }
                self.groups = groups;
                proof {
                    let g = before.groups@.len() as int;
                    assert(self.groups@[g].paths.deep_view() =~= seq![added]);
                    assert(self.key_at(g, key));
                    assert forall|i: int, e: Seq<char>| before.key_at(i, e) implies self.key_at(
                        i,
                        e,
                    ) by {}
                    assert forall|e: Seq<char>| self.holds(e) && e != key implies before.holds(e)
                        && self.position(e) == before.position(e) by {
                        let i = self.position(e);
                        assert(before.key_at(i, e));
                        let j = before.position(e);
                        assert(self.key_at(j, e));
                    }
                    assert(self.position(key) == g);
                    assert(self@ =~= before@.insert(key, seq![added]));
                }
            },
        }
    }
}

} // verus!
