//! Character-level text utilities: conversions between strings and character
//! vectors, decimal rendering of numbers, and substring search.

use vstd::prelude::*;

verus! {

/// `String::push` appends one character to the end of the string.
pub assume_specification[ String::push ](s: &mut String, ch: char)
    ensures
        final(s)@ == old(s)@.push(ch),
;

/// The characters of `s`, in order.
pub fn chars_of(s: &str) -> (out: Vec<char>)
    ensures
        out@ == s@,
{
    broadcast use vstd::string::group_string_axioms;

    let mut out: Vec<char> = Vec::new();
    for c in it: s.chars()
        invariant
            it.seq() == s@,
            out@ == s@.take(it.index()),
    {
        out.push(c);
    }
    out
}

/// A string made of the characters `chars[from..to]`, in order.
pub fn string_of_range(chars: &Vec<char>, from: usize, to: usize) -> (out: String)
    requires
        from <= to <= chars.len(),
    ensures
        out@ == chars@.subrange(from as int, to as int),
{
    let mut out = String::new();
    let mut i: usize = from;
    while i < to
        invariant
            from <= i <= to <= chars.len(),
            out@ == chars@.subrange(from as int, i as int),
        decreases to - i,
    {
        out.push(chars[i]);
        i += 1;
    }
    out
}

/// A string made of the characters of `chars`, in order.
pub fn string_of(chars: &Vec<char>) -> (out: String)
    ensures
        out@ == chars@,
{
    let out = string_of_range(chars, 0, chars.len());
    assert(chars@.subrange(0, chars.len() as int) == chars@);
    out
}

/// A copy of `list` that holds the same texts in the same order.
pub fn copy_strings(list: &Vec<String>) -> (out: Vec<String>)
    ensures
        out.deep_view() == list.deep_view(),
{
    let mut out: Vec<String> = Vec::new();
    let mut i: usize = 0;
    while i < list.len()
        invariant
            i <= list.len(),
            out.len() == i,
            forall|k: int| 0 <= k < i ==> out[k]@ == list[k]@,
        decreases list.len() - i,
    {
        out.push(list[i].clone());
        i += 1;
    }
    assert(out.deep_view() =~= list.deep_view());
    out
}

/// The character that stands for the digit `d`.
pub open spec fn digit_char(d: int) -> char {
    if d == 0 {
        '0'
    } else if d == 1 {
        '1'
    } else if d == 2 {
        '2'
    } else if d == 3 {
        '3'
    } else if d == 4 {
        '4'
    } else if d == 5 {
        '5'
    } else if d == 6 {
        '6'
    } else if d == 7 {
        '7'
    } else if d == 8 {
        '8'
    } else {
        '9'
    }
}

/// The decimal numeral of `n`: no sign, no leading zero, `"0"` for zero.
pub open spec fn decimal(n: nat) -> Seq<char>
    decreases n,
{
    if n < 10 {
        seq![digit_char(n as int)]
    } else {
        decimal(n / 10).push(digit_char((n % 10) as int))
    }
}

/// The character that stands for the digit `d`.
pub fn digit(d: u64) -> (c: char)
    requires
        d < 10,
    ensures
        c == digit_char(d as int),
{
    if d == 0 {
        '0'
    } else if d == 1 {
        '1'
    } else if d == 2 {
        '2'
    } else if d == 3 {
        '3'
    } else if d == 4 {
        '4'
    } else if d == 5 {
        '5'
    } else if d == 6 {
        '6'
    } else if d == 7 {
        '7'
    } else if d == 8 {
        '8'
    } else {
        '9'
    }
}

/// Appends the decimal numeral of `n` to `out`.
pub fn push_decimal(out: &mut Vec<char>, n: u64)
    ensures
        final(out)@ == old(out)@ + decimal(n as nat),
    decreases n,
{
    if n < 10 {
        out.push(digit(n));
        assert(out@ =~= old(out)@ + decimal(n as nat));
    } else {
        push_decimal(out, n / 10);
        out.push(digit(n % 10));
        assert(out@ =~= old(out)@ + decimal(n as nat));
    }
}

/// Whether `needle` stands in `hay` at position `at`.
pub open spec fn occurs_at(hay: Seq<char>, needle: Seq<char>, at: int) -> bool {
    &&& 0 <= at
    &&& at + needle.len() <= hay.len()
    &&& hay.subrange(at, at + needle.len()) == needle
}

/// Whether `needle` is a contiguous part of `hay`. The empty text is part of
/// every text.
pub open spec fn contains_text(hay: Seq<char>, needle: Seq<char>) -> bool {
    exists|at: int| occurs_at(hay, needle, at)
}

/// Whether `needle` stands in `hay` at position `at`.
pub fn matches_at(hay: &Vec<char>, needle: &Vec<char>, at: usize) -> (found: bool)
    requires
        at + needle.len() <= hay.len(),
    ensures
        found == occurs_at(hay@, needle@, at as int),
{
    let mut k: usize = 0;
    while k < needle.len()
        invariant
            k <= needle.len(),
            at + needle.len() <= hay.len(),
            forall|j: int| 0 <= j < k ==> hay[at + j] == needle[j],
        decreases needle.len() - k,
    {
        if hay[at + k] != needle[k] {
            assert(hay@.subrange(at as int, at + needle.len())[k as int] != needle@[k as int]);
            return false;
        }
        k += 1;
    }
    assert(hay@.subrange(at as int, at + needle.len()) =~= needle@);
    true
}

/// Whether `needle` is a contiguous part of `hay`.
pub fn contains_chars(hay: &Vec<char>, needle: &Vec<char>) -> (found: bool)
    ensures
        found == contains_text(hay@, needle@),
{
    if needle.len() > hay.len() {
        return false;
    }
    if needle.len() == 0 {
        assert(hay@.subrange(0, 0) =~= needle@);
        assert(occurs_at(hay@, needle@, 0));
        return true;
    }
    let last: usize = hay.len() - needle.len();
    let mut at: usize = 0;
    while at <= last
        invariant
            last == hay.len() - needle.len(),
            last < hay.len(),
            at <= last + 1,
            forall|j: int| 0 <= j < at ==> !occurs_at(hay@, needle@, j),
        decreases last + 1 - at,
    {
        if matches_at(hay, needle, at) {
            return true;
        }
        at += 1;
    }
    false
}

/// The parts of `s` between its separators `sep`, in order. There is one part
/// more than there are separators; a part is empty where two separators
/// touch, and at either end where `s` begins or ends with one.
pub open spec fn split_on(s: Seq<char>, sep: char) -> Seq<Seq<char>>
    decreases s.len(),
{
    if s.len() == 0 {
        seq![Seq::<char>::empty()]
    } else {
        let front = split_on(s.drop_last(), sep);
        if s.last() == sep {
            front.push(Seq::<char>::empty())
        } else {
            front.drop_last().push(front.last().push(s.last()))
        }
    }
}

/// The parts written one after another with `sep` between neighbours.
pub open spec fn join_with(parts: Seq<Seq<char>>, sep: char) -> Seq<char>
    decreases parts.len(),
{
    if parts.len() == 0 {
        Seq::<char>::empty()
    } else if parts.len() == 1 {
        parts[0]
    } else {
        join_with(parts.drop_last(), sep).push(sep) + parts.last()
    }
}

/// Whether no part holds the separator.
pub open spec fn free_of(parts: Seq<Seq<char>>, sep: char) -> bool {
    forall|i: int, k: int| 0 <= i < parts.len() && 0 <= k < parts[i].len() ==> parts[i][k] != sep
}

/// Splitting cuts at the separators and nowhere else, and drops nothing but
/// them: there is at least one part, no part holds the separator, and joining
/// the parts gives the text back.
pub proof fn lemma_split_on(s: Seq<char>, sep: char)
    ensures
        split_on(s, sep).len() >= 1,
        free_of(split_on(s, sep), sep),
        join_with(split_on(s, sep), sep) == s,
    decreases s.len(),
{
    if s.len() > 0 {
        let front = split_on(s.drop_last(), sep);
        let parts = split_on(s, sep);
        lemma_split_on(s.drop_last(), sep);
        if s.last() == sep {
            assert(parts.drop_last() =~= front);
            assert(join_with(parts, sep) =~= s);
        } else {
            let grown = front.last().push(s.last());
            assert(parts.last() == grown);
            assert(parts.drop_last() =~= front.drop_last());
            if front.len() == 1 {
                assert(join_with(parts, sep) =~= s);
            } else {
                assert(join_with(parts, sep) =~= join_with(front, sep).push(s.last()));
                assert(join_with(parts, sep) =~= s);
            }
            assert forall|i: int, k: int|
                0 <= i < parts.len() && 0 <= k < parts[i].len() implies parts[i][k] != sep by {
                if i < parts.len() - 1 {
                    assert(parts[i] == front[i]);
                } else if k < front.last().len() {
                    assert(parts[i][k] == front.last()[k]);
                }
            }
        }
    }
}

/// A text joined from two parts or more holds a separator in front of its
/// last part.
proof fn lemma_join_len(parts: Seq<Seq<char>>, sep: char)
    ensures
        parts.len() >= 2 ==> join_with(parts, sep).len() >= parts.last().len() + 1,
        parts.len() >= 2 && parts.last().len() == 0 ==> join_with(parts, sep).last() == sep,
{
}

/// Only one list of parts free of the separator joins to a given text: the
/// one that `split_on` gives.
pub proof fn lemma_split_on_unique(parts: Seq<Seq<char>>, s: Seq<char>, sep: char)
    requires
        parts.len() >= 1,
        free_of(parts, sep),
        join_with(parts, sep) == s,
    ensures
        parts == split_on(s, sep),
    decreases s.len(),
{
    lemma_join_len(parts, sep);
    if s.len() == 0 {
        assert(parts[0] =~= Seq::<char>::empty());
        assert(parts =~= split_on(s, sep));
    } else if parts.last().len() == 0 {
        let rest = parts.drop_last();
        assert(parts.last() =~= Seq::<char>::empty());
        assert(join_with(rest, sep) =~= s.drop_last());
        assert forall|i: int, k: int|
            0 <= i < rest.len() && 0 <= k < rest[i].len() implies rest[i][k] != sep by {
            assert(rest[i] == parts[i]);
        }
        lemma_split_on_unique(rest, s.drop_last(), sep);
        assert(parts =~= split_on(s, sep));
    } else {
        let tail = parts.last();
        let rest = parts.drop_last().push(tail.drop_last());
        assert(tail[tail.len() - 1] != sep);
        assert(s.last() == tail.last());
        assert(rest.drop_last() =~= parts.drop_last());
        assert(join_with(rest, sep) =~= s.drop_last());
        assert forall|i: int, k: int|
            0 <= i < rest.len() && 0 <= k < rest[i].len() implies rest[i][k] != sep by {
            if i < rest.len() - 1 {
                assert(rest[i] == parts[i]);
            } else {
                assert(rest[i][k] == tail[k]);
            }
        }
        lemma_split_on_unique(rest, s.drop_last(), sep);
        assert(tail.drop_last().push(tail.last()) =~= tail);
        assert(parts =~= split_on(s, sep));
    }
}

/// The parts of `s` between its separators `sep`.
pub fn split_text(s: &str, sep: char) -> (parts: Vec<String>)
    ensures
        parts.deep_view() == split_on(s@, sep),
{
    let chars = chars_of(s);
    let mut parts: Vec<String> = Vec::new();
    let mut start: usize = 0;
    let mut i: usize = 0;
    assert(chars@.subrange(0, 0) =~= Seq::<char>::empty());
    assert(parts.deep_view().push(chars@.subrange(0, 0)) =~= seq![Seq::<char>::empty()]);
    while i < chars.len()
        invariant
            start <= i <= chars.len(),
            split_on(chars@.take(i as int), sep) == parts.deep_view().push(
                chars@.subrange(start as int, i as int),
            ),
        decreases chars.len() - i,
    {
        let ghost before = parts.deep_view();
        let ghost open_part = chars@.subrange(start as int, i as int);
        assert(chars@.take(i + 1).drop_last() =~= chars@.take(i as int));
        assert(before.push(open_part).drop_last() =~= before);
        if chars[i] == sep {
            parts.push(string_of_range(&chars, start, i));
            start = i + 1;
            assert(parts.deep_view() =~= before.push(open_part));
            assert(chars@.subrange(start as int, i + 1) =~= Seq::<char>::empty());
        } else {
            assert(chars@.subrange(start as int, i + 1) =~= open_part.push(chars@[i as int]));
        }
        i += 1;
    }
    let ghost before = parts.deep_view();
    parts.push(string_of_range(&chars, start, chars.len()));
    assert(parts.deep_view() =~= before.push(chars@.subrange(start as int, chars.len() as int)));
    assert(chars@.take(chars.len() as int) =~= chars@);
    parts
}

} // verus!
