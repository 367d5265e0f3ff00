//! Operations on text, stated over character sequences.

use crate::order::{lemma_text_precedes_irreflexive, place_text, Placement};
use vstd::prelude::*;

verus! {

/// The position of the first `c` in `s`, or the length of `s` where there is none.
pub open spec fn first_index(s: Seq<char>, c: char) -> int
    decreases s.len(),
{
    if s.len() == 0 || s[0] == c {
        0
    } else {
        1 + first_index(s.drop_first(), c)
    }
}

/// The position of the last `c` in `s`, or -1 where there is none.
pub open spec fn last_index(s: Seq<char>, c: char) -> int
    decreases s.len(),
{
    if s.len() == 0 {
        -1
    } else if s.last() == c {
        s.len() - 1
    } else {
        last_index(s.drop_last(), c)
    }
}

/// The two sides of the first `c` in `s`.
pub open spec fn cut_first(s: Seq<char>, c: char) -> Option<(Seq<char>, Seq<char>)> {
    let i = first_index(s, c);
    if 0 <= i < s.len() {
        Some((s.take(i), s.skip(i + 1)))
    } else {
        None
    }
}

/// The two sides of the last `c` in `s`.
pub open spec fn cut_last(s: Seq<char>, c: char) -> Option<(Seq<char>, Seq<char>)> {
    let i = last_index(s, c);
    if i >= 0 {
        Some((s.take(i), s.skip(i + 1)))
    } else {
        None
    }
}

/// The part of `s` before its first `c`, or all of `s`.
pub open spec fn before_first(s: Seq<char>, c: char) -> Seq<char> {
    s.take(first_index(s, c))
}

pub proof fn lemma_first_index(s: Seq<char>, c: char)
    ensures
        0 <= first_index(s, c) <= s.len(),
        first_index(s, c) < s.len() ==> s[first_index(s, c)] == c,
        forall|j: int| 0 <= j < first_index(s, c) ==> s[j] != c,
        first_index(s, c) < s.len() <==> s.contains(c),
    decreases s.len(),
{
    if s.len() > 0 && s[0] != c {
        let t = s.drop_first();
        lemma_first_index(t, c);
        assert forall|j: int| 0 <= j < first_index(s, c) implies s[j] != c by {
            if j > 0 {
                assert(t[j - 1] == s[j]);
            }
        }
        if s.contains(c) {
            let j = choose|j: int| 0 <= j < s.len() && s[j] == c;
            assert(t[j - 1] == c);
        }
    } else if s.len() > 0 {
        assert(s.contains(s[0]));
    }
}

pub proof fn lemma_last_index(s: Seq<char>, c: char)
    ensures
        -1 <= last_index(s, c) < s.len(),
        last_index(s, c) >= 0 ==> s[last_index(s, c)] == c,
        forall|j: int| last_index(s, c) < j < s.len() ==> s[j] != c,
        last_index(s, c) >= 0 <==> s.contains(c),
    decreases s.len(),
{
    if s.len() > 0 && s.last() != c {
        let t = s.drop_last();
        lemma_last_index(t, c);
        assert forall|j: int| last_index(s, c) < j < s.len() implies s[j] != c by {
            if j < s.len() - 1 {
                assert(t[j] == s[j]);
            }
        }
        if s.contains(c) {
            let j = choose|j: int| 0 <= j < s.len() && s[j] == c;
            assert(t[j] == c);
        }
    } else if s.len() > 0 {
        assert(s.contains(s.last()));
    }
}

/// The characters of a text.
pub fn chars_of(s: &str) -> (v: Vec<char>)
    ensures
        v@ == s@,
{
    let mut chars = s.chars();
    let mut v: Vec<char> = Vec::new();
    loop
        invariant
            v@.len() <= s@.len(),
            v@ == s@.take(v@.len() as int),
            vstd::std_specs::iter::IteratorSpec::remaining(&chars) == s@.skip(v@.len() as int),
        decreases s@.len() - v@.len(),
    {
        match chars.next() {
            Some(c) => {
                let ghost n = v@.len() as int;
                v.push(c);
                assert(s@.skip(n).drop_first() =~= s@.skip(n + 1));
                assert(s@.take(n + 1) =~= s@.take(n).push(c));
            },
            None => {
                assert(s@.take(v@.len() as int) =~= s@);
                return v;
            },
        }
    }
}

/// Whether two texts hold the same characters.
pub fn same_text(a: &str, b: &str) -> (same: bool)
    ensures
        same == (a@ == b@),
{
    proof {
        lemma_text_precedes_irreflexive(a@);
    }
    match place_text(a, b) {
        Placement::Same => true,
        _ => false,
    }
}

fn find_char(chars: &Vec<char>, c: char) -> (i: usize)
    ensures
        i == first_index(chars@, c),
{
    let mut i: usize = 0;
    assert(chars@.skip(0) =~= chars@);
    while i < chars.len()
        invariant
            i <= chars@.len(),
            first_index(chars@, c) == i + first_index(chars@.skip(i as int), c),
        decreases chars@.len() - i,
    {
        if chars[i] == c {
            return i;
        }
        assert(chars@.skip(i as int).drop_first() =~= chars@.skip(i + 1));
        i += 1;
    }
    i
}

/// The two sides of the first `c`, if there is one.
pub fn split_once<'a>(s: &'a str, c: char) -> (sides: Option<(&'a str, &'a str)>)
    ensures
        match sides {
            Some((left, right)) => cut_first(s@, c) == Some((left@, right@)),
            None => cut_first(s@, c) is None,
        },
{
    let chars = chars_of(s);
    let i = find_char(&chars, c);
    if i < chars.len() {
        let n = chars.len();
        Some((s.substring_char(0, i), s.substring_char(i + 1, n)))
    } else {
        None
    }
}

/// The two sides of the last `c`, if there is one.
pub fn rsplit_once<'a>(s: &'a str, c: char) -> (sides: Option<(&'a str, &'a str)>)
    ensures
        match sides {
            Some((left, right)) => cut_last(s@, c) == Some((left@, right@)),
            None => cut_last(s@, c) is None,
        },
{
    let chars = chars_of(s);
    let n = chars.len();
    let mut i: usize = n;
    assert(s@.take(n as int) =~= s@);
    while i > 0
        invariant
            i <= n,
            n == s@.len(),
            chars@ == s@,
            last_index(s@, c) == last_index(s@.take(i as int), c),
        decreases i,
    {
        if chars[i - 1] == c {
            return Some((s.substring_char(0, i - 1), s.substring_char(i, n)));
        }
        assert(s@.take(i as int).drop_last() =~= s@.take(i - 1));
        i -= 1;
    }
    None
}

/// The part before the first `c`, or the whole text.
pub fn leading_part<'a>(s: &'a str, c: char) -> (part: &'a str)
    ensures
        part@ == before_first(s@, c),
{
    let chars = chars_of(s);
    let i = find_char(&chars, c);
    proof {
        lemma_first_index(s@, c);
    }
    s.substring_char(0, i)
}

pub fn contains_char(s: &str, c: char) -> (found: bool)
    ensures
        found == s@.contains(c),
{
    let chars = chars_of(s);
    proof {
        lemma_first_index(s@, c);
    }
    find_char(&chars, c) < chars.len()
}

/// `left`, the character `c`, and `right`.
pub open spec fn linked(left: Seq<char>, c: char, right: Seq<char>) -> Seq<char> {
    left.push(c) + right
}

/// `left`, a dot, and `right`.
pub open spec fn dotted(left: Seq<char>, right: Seq<char>) -> Seq<char> {
    linked(left, '.', right)
}

/// Joins two texts by a separator of one character.
pub fn join_linked(left: &str, separator: &str, right: &str) -> (joined: String)
    requires
        separator@.len() == 1,
    ensures
        joined@ == linked(left@, separator@[0], right@),
{
    let mut joined = left.to_string();
    joined.append(separator);
    assert(joined@ =~= left@.push(separator@[0]));
    joined.append(right);
    joined
}

pub fn join_dotted(left: &str, right: &str) -> (joined: String)
    ensures
        joined@ == dotted(left@, right@),
{
    proof {
        reveal_strlit(".");
    }
    join_linked(left, ".", right)
}

/// The segments of `s` between the occurrences of `c`; one segment where `c` does not occur.
pub open spec fn split_segments(s: Seq<char>, c: char) -> Seq<Seq<char>>
    decreases s.len(),
{
    let i = first_index(s, c);
    if 0 <= i < s.len() {
        seq![s.take(i)] + split_segments(s.skip(i + 1), c)
    } else {
        seq![s]
    }
}

/// Segments joined by `c`.
pub open spec fn join_segments(parts: Seq<Seq<char>>, c: char) -> Seq<char>
    decreases parts.len(),
{
    if parts.len() == 0 {
        Seq::empty()
    } else if parts.len() == 1 {
        parts[0]
    } else {
        linked(join_segments(parts.drop_last(), c), c, parts.last())
    }
}

/// How the segments change when a character is appended.
pub proof fn lemma_split_push(s: Seq<char>, x: char, c: char)
    ensures
        split_segments(s, c).len() > 0,
        split_segments(s.push(x), c) == if x == c {
            split_segments(s, c).push(Seq::empty())
        } else {
            split_segments(s, c).drop_last().push(split_segments(s, c).last().push(x))
        },
    decreases s.len(),
{
    lemma_first_index(s, c);
    let longer = s.push(x);
    lemma_first_index(longer, c);
    let i = first_index(s, c);
    let k = first_index(longer, c);
    let parts = split_segments(s, c);
    if i < s.len() {
        assert(longer[i] == c);
        if k < i {
            assert(s[k] == c);
        }
        assert(k == i);
        let rest = s.skip(i + 1);
        lemma_split_push(rest, x, c);
        assert(longer.skip(i + 1) =~= rest.push(x));
        assert(longer.take(i) =~= s.take(i));
        let head = seq![s.take(i)];
        let tail = split_segments(rest, c);
        assert(parts == head + tail);
        if x == c {
            assert(head + tail.push(Seq::empty()) =~= parts.push(Seq::empty()));
        } else {
            assert(head + tail.drop_last().push(tail.last().push(x)) =~= parts.drop_last().push(
                parts.last().push(x),
            ));
        }
    } else if x == c {
        assert(longer[s.len() as int] == c);
        if k < s.len() {
            assert(s[k] == c);
        }
        assert(k == s.len());
        assert(longer.take(k) =~= s);
        assert(longer.skip(k + 1) =~= Seq::empty());
        lemma_first_index(Seq::<char>::empty(), c);
        assert(split_segments(Seq::<char>::empty(), c) =~= seq![Seq::<char>::empty()]);
        assert(seq![s] + seq![Seq::<char>::empty()] =~= seq![s].push(Seq::empty()));
    } else {
        if k < longer.len() {
            if k < s.len() {
                assert(s[k] == c);
            }
        }
        assert(seq![longer] =~= parts.drop_last().push(parts.last().push(x)));
    }
}

/// Joining the segments of a text gives the text back.
pub proof fn lemma_join_split(s: Seq<char>, c: char)
    ensures
        split_segments(s, c).len() > 0,
        join_segments(split_segments(s, c), c) == s,
    decreases s.len(),
{
    let parts = split_segments(s, c);
    if s.len() == 0 {
        lemma_first_index(s, c);
        assert(parts =~= seq![s]);
    } else {
        let shorter = s.drop_last();
        let x = s.last();
        let before = split_segments(shorter, c);
        assert(s =~= shorter.push(x));
        lemma_join_split(shorter, c);
        lemma_split_push(shorter, x, c);
        if x == c {
            assert(parts.drop_last() =~= before);
            assert(linked(shorter, c, Seq::empty()) =~= s);
        } else {
            let last = before.last().push(x);
            assert(parts.drop_last() =~= before.drop_last());
            if before.len() == 1 {
                assert(before.last() == shorter);
            } else {
                let front = join_segments(before.drop_last(), c);
                assert(linked(front, c, last) =~= s);
            }
        }
    }
}

/// No segment holds what separates them.
pub proof fn lemma_split_parts(s: Seq<char>, c: char)
    ensures
        forall|i: int|
            0 <= i < split_segments(s, c).len() ==> !(#[trigger] split_segments(s, c)[i]).contains(
                c,
            ),
    decreases s.len(),
{
    lemma_first_index(s, c);
    let i = first_index(s, c);
    if i < s.len() {
        let rest = s.skip(i + 1);
        lemma_split_parts(rest, c);
        let parts = split_segments(s, c);
        assert forall|k: int| 0 <= k < parts.len() implies !(#[trigger] parts[k]).contains(c) by {
            if k > 0 {
                assert(parts[k] == split_segments(rest, c)[k - 1]);
            }
        }
    }
}

pub proof fn lemma_split_append(s: Seq<char>, part: Seq<char>, c: char)
    requires
        !part.contains(c),
    ensures
        split_segments(linked(s, c, part), c) == split_segments(s, c).push(part),
    decreases part.len(),
{
    if part.len() == 0 {
        lemma_split_push(s, c, c);
        assert(linked(s, c, part) =~= s.push(c));
        assert(part =~= Seq::empty());
    } else {
        let shorter = part.drop_last();
        let x = part.last();
        assert(!shorter.contains(c)) by {
            if shorter.contains(c) {
                let j = choose|j: int| 0 <= j < shorter.len() && shorter[j] == c;
                assert(part[j] == c);
            }
        }
        assert(x != c) by {
            assert(part[part.len() - 1] == x);
        }
        lemma_split_append(s, shorter, c);
        lemma_split_push(linked(s, c, shorter), x, c);
        assert(linked(s, c, part) =~= linked(s, c, shorter).push(x));
        assert(part =~= shorter.push(x));
        assert(split_segments(s, c).push(shorter).drop_last() =~= split_segments(s, c));
    }
}

/// Splitting what segments were joined to gives the segments back.
pub proof fn lemma_split_join(parts: Seq<Seq<char>>, c: char)
    requires
        parts.len() > 0,
        forall|i: int| 0 <= i < parts.len() ==> !(#[trigger] parts[i]).contains(c),
    ensures
        split_segments(join_segments(parts, c), c) == parts,
    decreases parts.len(),
{
    if parts.len() == 1 {
        lemma_first_index(parts[0], c);
        assert(split_segments(parts[0], c) =~= parts);
    } else {
        let front = parts.drop_last();
        assert forall|i: int| 0 <= i < front.len() implies !(#[trigger] front[i]).contains(c) by {
            assert(front[i] == parts[i]);
        }
        lemma_split_join(front, c);
        lemma_split_append(join_segments(front, c), parts.last(), c);
        assert(front.push(parts.last()) =~= parts);
    }
}

/// The views of a list of texts.
pub open spec fn texts(v: Seq<String>) -> Seq<Seq<char>> {
    v.map_values(|s: String| s@)
}

pub fn split_text(s: &str, c: char) -> (parts: Vec<String>)
    ensures
        texts(parts@) == split_segments(s@, c),
{
    let chars = chars_of(s);
    let n = chars.len();
    let mut parts: Vec<String> = Vec::new();
    let mut start: usize = 0;
    let mut i: usize = 0;
    proof {
        assert(s@.subrange(0, 0).len() == 0);
        assert(s@.skip(0) =~= s@);
        assert(texts(parts@) =~= Seq::empty());
        assert(texts(parts@) + split_segments(s@, c) =~= split_segments(s@, c));
    }
    while i < n
        invariant
            start <= i <= n,
            n == s@.len(),
            chars@ == s@,
            forall|j: int| start <= j < i ==> s@[j] != c,
            texts(parts@) + split_segments(s@.skip(start as int), c) == split_segments(s@, c),
        decreases n - i,
    {
        if chars[i] == c {
            let ghost tail = s@.skip(start as int);
            let ghost before = texts(parts@);
            proof {
                lemma_first_index(tail, c);
                assert(tail[i - start] == c);
                assert(first_index(tail, c) == i - start) by {
                    let f = first_index(tail, c);
                    if f < i - start {
                        assert(s@[start + f] == tail[f]);
                    }
                }
                assert(tail.take(i - start) =~= s@.subrange(start as int, i as int));
                assert(tail.skip(i - start + 1) =~= s@.skip(i + 1));
            }
            let part = s.substring_char(start, i).to_string();
            let ghost piece = part@;
            parts.push(part);
            proof {
                assert(texts(parts@) =~= before.push(piece));
                assert(before + (seq![piece] + split_segments(s@.skip(i + 1), c)) =~= texts(parts@)
                    + split_segments(s@.skip(i + 1), c));
            }
            start = i + 1;
        }
        i += 1;
    }
    let ghost tail = s@.skip(start as int);
    let ghost before = texts(parts@);
    proof {
        lemma_first_index(tail, c);
        assert(first_index(tail, c) == tail.len()) by {
            let f = first_index(tail, c);
            if f < tail.len() {
                assert(s@[start + f] == tail[f]);
            }
        }
        assert(tail =~= s@.subrange(start as int, n as int));
    }
    let part = s.substring_char(start, n).to_string();
    let ghost piece = part@;
    parts.push(part);
    assert(texts(parts@) =~= before + seq![piece]);
    parts
}

/// Joins texts by a separator of one character.
pub fn join_text(parts: &Vec<String>, separator: &str) -> (joined: String)
    requires
        separator@.len() == 1,
    ensures
        joined@ == join_segments(texts(parts@), separator@[0]),
{
    if parts.len() == 0 {
        return String::new();
    }
    let mut joined = parts[0].clone();
    let mut i: usize = 1;
    assert(texts(parts@).take(1) =~= seq![parts@[0]@]);
    while i < parts.len()
        invariant
            1 <= i <= parts@.len(),
            separator@.len() == 1,
            joined@ == join_segments(texts(parts@).take(i as int), separator@[0]),
        decreases parts@.len() - i,
    {
        assert(texts(parts@).take(i + 1).drop_last() =~= texts(parts@).take(i as int));
        joined = join_linked(joined.as_str(), separator, parts[i].as_str());
        i += 1;
    }
    assert(texts(parts@).take(i as int) =~= texts(parts@));
    joined
}

/// Unicode's `White_Space` property.
pub open spec fn is_white_space(c: char) -> bool {
    ||| '\u{9}' <= c <= '\u{D}'
    ||| c == ' '
    ||| c == '\u{85}'
    ||| c == '\u{A0}'
    ||| c == '\u{1680}'
    ||| '\u{2000}' <= c <= '\u{200A}'
    ||| c == '\u{2028}'
    ||| c == '\u{2029}'
    ||| c == '\u{202F}'
    ||| c == '\u{205F}'
    ||| c == '\u{3000}'
}

fn white_space(c: char) -> (yes: bool)
    ensures
        yes == is_white_space(c),
{
    ('\u{9}' <= c && c <= '\u{D}') || c == ' ' || c == '\u{85}' || c == '\u{A0}' || c == '\u{1680}'
        || ('\u{2000}' <= c && c <= '\u{200A}') || c == '\u{2028}' || c == '\u{2029}' || c
        == '\u{202F}' || c == '\u{205F}' || c == '\u{3000}'
}

pub open spec fn trimmed_start(s: Seq<char>) -> Seq<char>
    decreases s.len(),
{
    if s.len() > 0 && is_white_space(s[0]) {
        trimmed_start(s.drop_first())
    } else {
        s
    }
}

pub open spec fn trimmed_end(s: Seq<char>) -> Seq<char>
    decreases s.len(),
{
    if s.len() > 0 && is_white_space(s.last()) {
        trimmed_end(s.drop_last())
    } else {
        s
    }
}

/// `s` without the white space at its ends.
pub open spec fn trimmed(s: Seq<char>) -> Seq<char> {
    trimmed_end(trimmed_start(s))
}

pub fn trim<'a>(s: &'a str) -> (t: &'a str)
    ensures
        t@ == trimmed(s@),
{
    let chars = chars_of(s);
    let n = chars.len();
    let mut start: usize = 0;
    assert(s@.skip(0) =~= s@);
    while start < n && white_space(chars[start])
        invariant
            start <= n,
            n == s@.len(),
            chars@ == s@,
            trimmed_start(s@) == trimmed_start(s@.skip(start as int)),
        decreases n - start,
    {
        assert(s@.skip(start as int).drop_first() =~= s@.skip(start + 1));
        start += 1;
    }
    let mut end: usize = n;
    let ghost rest = s@.skip(start as int);
    assert(rest =~= s@.subrange(start as int, end as int));
    assert(rest == trimmed_start(s@));
    while start < end && white_space(chars[end - 1])
        invariant
            start <= end <= n,
            n == s@.len(),
            chars@ == s@,
            trimmed_end(rest) == trimmed_end(s@.subrange(start as int, end as int)),
        decreases end - start,
    {
        assert(s@.subrange(start as int, end as int).drop_last() =~= s@.subrange(
            start as int,
            end - 1,
        ));
        end -= 1;
    }
    s.substring_char(start, end)
}

/// `s` with every backslash turned into a slash.
pub open spec fn slashed(s: Seq<char>) -> Seq<char> {
    s.map_values(
        |c: char|
            if c == '\\' {
                '/'
            } else {
                c
            },
    )
}

pub fn with_slashes(s: &str) -> (t: String)
    ensures
        t@ == slashed(s@),
{
    proof {
        reveal_strlit("/");
    }
    let chars = chars_of(s);
    let n = chars.len();
    let mut t = String::new();
    let mut start: usize = 0;
    let mut i: usize = 0;
    while i < n
        invariant
            start <= i <= n,
            n == s@.len(),
            chars@ == s@,
            "/"@ == seq!['/'],
            t@ == slashed(s@).take(start as int),
            forall|j: int| start <= j < i ==> s@[j] != '\\',
        decreases n - i,
    {
        if chars[i] == '\\' {
            t.append(s.substring_char(start, i));
            t.append("/");
            assert(t@ =~= slashed(s@).take(i + 1));
            start = i + 1;
        }
        i += 1;
    }
    t.append(s.substring_char(start, n));
    assert(t@ =~= slashed(s@));
    t
}

/// Whether `s` begins and ends with two underscores.
pub open spec fn is_dunder(s: Seq<char>) -> bool {
    &&& s.len() >= 2
    &&& s.take(2) == seq!['_', '_']
    &&& s.skip(s.len() - 2) == seq!['_', '_']
}

pub open spec fn starts_with_underscore(s: Seq<char>) -> bool {
    s.len() > 0 && s[0] == '_'
}

pub fn leading_underscore(s: &str) -> (yes: bool)
    ensures
        yes == starts_with_underscore(s@),
{
    !s.is_empty() && s.get_char(0) == '_'
}

pub fn dunder(s: &str) -> (yes: bool)
    ensures
        yes == is_dunder(s@),
{
    let chars = chars_of(s);
    let n = chars.len();
    if n < 2 {
        return false;
    }
    proof {
        if s@[0] == '_' && s@[1] == '_' {
            assert(s@.take(2) =~= seq!['_', '_']);
        } else {
            assert(s@.take(2)[0] == s@[0] && s@.take(2)[1] == s@[1]);
            assert(seq!['_', '_'][0] == '_' && seq!['_', '_'][1] == '_');
        }
        let t = s@.skip(n - 2);
        if s@[n - 2] == '_' && s@[n - 1] == '_' {
            assert(t =~= seq!['_', '_']);
        } else {
            assert(t[0] == s@[n - 2] && t[1] == s@[n - 1]);
            assert(seq!['_', '_'][0] == '_' && seq!['_', '_'][1] == '_');
        }
    }
    chars[0] == '_' && chars[1] == '_' && chars[n - 2] == '_' && chars[n - 1] == '_'
}

/// The dotted paths that enclose `module`: its parts before each of its dots, outermost first.
pub open spec fn parents(module: Seq<char>) -> Seq<Seq<char>>
    decreases module.len(),
{
    if module.len() == 0 {
        Seq::empty()
    } else if module.last() == '.' {
        parents(module.drop_last()).push(module.drop_last())
    } else {
        parents(module.drop_last())
    }
}

pub fn parent_modules(module: &str) -> (list: Vec<String>)
    ensures
        texts(list@) == parents(module@),
{
    let chars = chars_of(module);
    let n = chars.len();
    let mut list: Vec<String> = Vec::new();
    let mut i: usize = 0;
    assert(texts(list@) =~= parents(module@.take(0)));
    while i < n
        invariant
            i <= n,
            n == module@.len(),
            chars@ == module@,
            texts(list@) == parents(module@.take(i as int)),
        decreases n - i,
    {
        assert(module@.take(i + 1).drop_last() =~= module@.take(i as int));
        if chars[i] == '.' {
            let ghost before = texts(list@);
            let parent = module.substring_char(0, i).to_string();
            assert(parent@ =~= module@.take(i as int));
            list.push(parent);
            assert(texts(list@) =~= before.push(module@.take(i as int)));
        }
        i += 1;
    }
    assert(module@.take(n as int) =~= module@);
    list
}

} // verus!
