//! What a path says about its entry: the file name and the extension, and
//! which names are hidden. Paths are texts whose segments are separated by
//! `/`.

use vstd::prelude::*;
use crate::text::{chars_of, string_of_range};

verus! {

/// Position of the last `c` in `s`, or `-1` where `s` holds none.
pub open spec fn last_index_of(s: Seq<char>, c: char) -> int
    decreases s.len(),
{
    if s.len() == 0 {
        -1
    } else if s.last() == c {
        s.len() - 1
    } else {
        last_index_of(s.drop_last(), c)
    }
}

/// `last_index_of` is the one position that holds `c` and has no `c` behind it.
pub proof fn lemma_last_index_of(s: Seq<char>, c: char)
    ensures
        -1 <= last_index_of(s, c) < s.len(),
        last_index_of(s, c) >= 0 ==> s[last_index_of(s, c)] == c,
        forall|j: int| last_index_of(s, c) < j < s.len() ==> s[j] != c,
    decreases s.len(),
{
    if s.len() > 0 && s.last() != c {
        let front = s.drop_last();
        lemma_last_index_of(front, c);
        assert forall|j: int| last_index_of(s, c) < j < s.len() implies s[j] != c by {
            if j < front.len() {
                assert(s[j] == front[j]);
            }
        }
    }
}

/// A position that holds `c` with no `c` behind it, or `-1` where there is no
/// `c` at all, is `last_index_of`.
pub proof fn lemma_last_index_of_unique(s: Seq<char>, c: char, k: int)
    requires
        -1 <= k < s.len(),
        k >= 0 ==> s[k] == c,
        forall|j: int| k < j < s.len() ==> s[j] != c,
    ensures
        last_index_of(s, c) == k,
{
    lemma_last_index_of(s, c);
}

/// The last segment of `path`: what follows its last `/`, or all of it.
pub open spec fn file_name(path: Seq<char>) -> Seq<char> {
    path.subrange(last_index_of(path, '/') + 1, path.len() as int)
}

/// A name is hidden when it begins with a dot.
pub open spec fn is_hidden_name(name: Seq<char>) -> bool {
    name.len() > 0 && name[0] == '.'
}

/// The extension of a file name: the text behind its last dot. A name has
/// none where it holds no dot, where its only dot is its first character, or
/// where nothing follows its last dot.
pub open spec fn name_extension(name: Seq<char>) -> Option<Seq<char>> {
    let dot = last_index_of(name, '.');
    if 0 < dot && dot + 1 < name.len() {
        Some(name.subrange(dot + 1, name.len() as int))
    } else {
        None
    }
}

/// The extension of the file that `path` names.
pub open spec fn extension(path: Seq<char>) -> Option<Seq<char>> {
    name_extension(file_name(path))
}

/// An extension is never empty and holds neither a dot nor a separator.
pub proof fn lemma_extension_shape(path: Seq<char>)
    ensures
        extension(path) matches Some(ext) ==> {
            &&& ext.len() > 0
            &&& !ext.contains('.')
            &&& !ext.contains('/')
        },
{
    let name = file_name(path);
    lemma_last_index_of(path, '/');
    lemma_last_index_of(name, '.');
    if let Some(ext) = extension(path) {
        let dot = last_index_of(name, '.');
        assert forall|k: int| 0 <= k < ext.len() implies ext[k] != '.' && ext[k] != '/' by {
            assert(ext[k] == name[dot + 1 + k]);
            assert(name[dot + 1 + k] == path[last_index_of(path, '/') + 1 + dot + 1 + k]);
        }
    }
}

/// Position of the last `c` in `chars[from..to]`, counted from `from`, or
/// `None` where that range holds none.
pub fn find_last(chars: &Vec<char>, c: char, from: usize, to: usize) -> (found: Option<usize>)
    requires
        from <= to <= chars.len(),
    ensures
        match found {
            Some(k) => k < to - from && k == last_index_of(
                chars@.subrange(from as int, to as int),
                c,
            ),
            None => last_index_of(chars@.subrange(from as int, to as int), c) == -1,
        },
{
    let ghost part = chars@.subrange(from as int, to as int);
    let mut i: usize = to;
    while i > from
        invariant
            from <= i <= to <= chars.len(),
            part == chars@.subrange(from as int, to as int),
            forall|j: int| i - from <= j < part.len() ==> part[j] != c,
        decreases i,
    {
        i -= 1;
        if chars[i] == c {
            proof {
                lemma_last_index_of_unique(part, c, i - from);
            }
            return Some(i - from);
        }
    }
    proof {
        lemma_last_index_of_unique(part, c, -1);
    }
    None
}

/// Where the file name begins in `chars`.
pub fn file_name_start(chars: &Vec<char>) -> (start: usize)
    ensures
        start == last_index_of(chars@, '/') + 1,
        start <= chars.len(),
        file_name(chars@) == chars@.subrange(start as int, chars.len() as int),
{
    assert(chars@.subrange(0, chars.len() as int) == chars@);
    proof {
        lemma_last_index_of(chars@, '/');
    }
    match find_last(chars, '/', 0, chars.len()) {
        Some(k) => k + 1,
        None => 0,
    }
}

/// The characters of the file name of `path`.
pub fn file_name_chars(path: &str) -> (name: Vec<char>)
    ensures
        name@ == file_name(path@),
{
    let chars = chars_of(path);
    let start = file_name_start(&chars);
    let mut name: Vec<char> = Vec::new();
    let mut i: usize = start;
    while i < chars.len()
        invariant
            start <= i <= chars.len(),
            name@ == chars@.subrange(start as int, i as int),
        decreases chars.len() - i,
    {
        name.push(chars[i]);
        i += 1;
    }
    name
}

/// The file name of `path`.
pub fn file_name_of(path: &str) -> (name: String)
    ensures
        name@ == file_name(path@),
{
    let chars = chars_of(path);
    let start = file_name_start(&chars);
    string_of_range(&chars, start, chars.len())
}

/// Whether the name `name` begins with a dot.
pub fn begins_with_dot(name: &str) -> (hidden: bool)
    ensures
        hidden == is_hidden_name(name@),
{
    let chars = chars_of(name);
    chars.len() > 0 && chars[0] == '.'
}

/// The extension of the file that `path` names, where it has one.
pub fn extension_of(path: &str) -> (ext: Option<String>)
    ensures
        ext is Some == extension(path@) is Some,
        ext matches Some(e) ==> extension(path@) == Some(e@),
{
    let chars = chars_of(path);
    let start = file_name_start(&chars);
    let ghost name = file_name(path@);
    match find_last(&chars, '.', start, chars.len()) {
        Some(dot) => {
            if 0 < dot && dot + 1 < chars.len() - start {
                let ext = string_of_range(&chars, start + dot + 1, chars.len());
                assert(chars@.subrange(start + dot + 1, chars.len() as int) =~= name.subrange(
                    dot + 1,
                    name.len() as int,
                ));
                Some(ext)
            } else {
                None
            }
        },
        None => None,
    }
}

} // verus!
