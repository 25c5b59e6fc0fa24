//! Texts taken apart: lines, words, pieces and what surrounds them.
use vstd::prelude::*;
use vstd::string::*;

use crate::text::same_text;

verus! {

/// Whether a character is white space.
pub open spec fn is_space(c: char) -> bool {
    ||| '\u{9}' <= c <= '\u{d}'
    ||| c == ' '
    ||| c == '\u{85}'
    ||| c == '\u{a0}'
    ||| c == '\u{1680}'
    ||| '\u{2000}' <= c <= '\u{200a}'
    ||| c == '\u{2028}'
    ||| c == '\u{2029}'
    ||| c == '\u{202f}'
    ||| c == '\u{205f}'
    ||| c == '\u{3000}'
}

fn space(c: char) -> (r: bool)
    ensures
        r == is_space(c),
{
    ('\u{9}' <= c && c <= '\u{d}') || c == ' ' || c == '\u{85}' || c == '\u{a0}' || c == '\u{1680}'
        || ('\u{2000}' <= c && c <= '\u{200a}') || c == '\u{2028}' || c == '\u{2029}' || c
        == '\u{202f}' || c == '\u{205f}' || c == '\u{3000}'
}

/// Texts, each as mathematics.
pub open spec fn texts(items: Seq<String>) -> Seq<Seq<char>> {
    items.map_values(|item: String| item@)
}

/// Where a character first stands, or the length of the text.
pub open spec fn first_at(text: Seq<char>, c: char) -> nat
    decreases text.len(),
{
    if text.len() == 0 || text[0] == c {
        0
    } else {
        1 + first_at(text.drop_first(), c)
    }
}

pub proof fn lemma_first_at(text: Seq<char>, c: char)
    ensures
        first_at(text, c) <= text.len(),
        first_at(text, c) < text.len() ==> text[first_at(text, c) as int] == c,
        forall|i: int| 0 <= i < first_at(text, c) ==> text[i] != c,
    decreases text.len(),
{
    if text.len() > 0 && text[0] != c {
        let rest = text.drop_first();
        lemma_first_at(rest, c);
        assert forall|i: int| 0 <= i < first_at(text, c) implies text[i] != c by {
            if i > 0 {
                assert(rest[i - 1] == text[i]);
            }
        }
    }
}

pub(crate) proof fn lemma_first_is(text: Seq<char>, c: char, n: nat)
    requires
        n <= text.len(),
        n < text.len() ==> text[n as int] == c,
        forall|i: int| 0 <= i < n ==> text[i] != c,
    ensures
        first_at(text, c) == n,
    decreases text.len(),
{
    lemma_first_at(text, c);
    let m = first_at(text, c);
    if m < n {
        assert(text[m as int] != c);
    } else if n < m {
        assert(text[n as int] != c);
    }
}

/// What stands before and behind the first of a character.
pub open spec fn split_at_first(text: Seq<char>, c: char) -> Option<(Seq<char>, Seq<char>)> {
    let n = first_at(text, c);
    if n < text.len() {
        Some((text.take(n as int), text.skip(n as int + 1)))
    } else {
        None
    }
}

/// What stands before the first of a character.
pub open spec fn before_first(text: Seq<char>, c: char) -> Seq<char> {
    text.take(first_at(text, c) as int)
}

/// The pieces between the occurrences of a character.
pub open spec fn pieces(text: Seq<char>, c: char) -> Seq<Seq<char>>
    decreases text.len(),
    via pieces_decreases
{
    match split_at_first(text, c) {
        Some((piece, rest)) => seq![piece] + pieces(rest, c),
        None => seq![text],
    }
}

#[via_fn]
proof fn pieces_decreases(text: Seq<char>, c: char) {
    lemma_first_at(text, c);
}

/// A line without the carriage return before its end.
pub open spec fn without_return(line: Seq<char>) -> Seq<char> {
    if line.len() > 0 && line.last() == '\r' {
        line.drop_last()
    } else {
        line
    }
}

/// The lines of a text, without their ends.
pub open spec fn lines(text: Seq<char>) -> Seq<Seq<char>>
    decreases text.len(),
    via lines_decreases
{
    match split_at_first(text, '\n') {
        Some((line, rest)) => seq![without_return(line)] + lines(rest),
        None => if text.len() == 0 {
            seq![]
        } else {
            seq![text]
        },
    }
}

#[via_fn]
proof fn lines_decreases(text: Seq<char>) {
    lemma_first_at(text, '\n');
}

/// How many characters a text begins with that are white space, or that are
/// not.
pub open spec fn run_of(text: Seq<char>, spaces: bool) -> nat
    decreases text.len(),
{
    if text.len() == 0 || is_space(text[0]) != spaces {
        0
    } else {
        1 + run_of(text.drop_first(), spaces)
    }
}

pub proof fn lemma_run_of(text: Seq<char>, spaces: bool)
    ensures
        run_of(text, spaces) <= text.len(),
        run_of(text, spaces) < text.len() ==> is_space(text[run_of(text, spaces) as int])
            != spaces,
        forall|i: int| 0 <= i < run_of(text, spaces) ==> is_space(#[trigger] text[i]) == spaces,
    decreases text.len(),
{
    if text.len() > 0 && is_space(text[0]) == spaces {
        let rest = text.drop_first();
        lemma_run_of(rest, spaces);
        assert forall|i: int| 0 <= i < run_of(text, spaces) implies is_space(#[trigger] text[i])
            == spaces by {
            if i > 0 {
                assert(rest[i - 1] == text[i]);
            }
        }
    }
}

pub(crate) proof fn lemma_run_is(text: Seq<char>, spaces: bool, n: nat)
    requires
        n <= text.len(),
        n < text.len() ==> is_space(text[n as int]) != spaces,
        forall|i: int| 0 <= i < n ==> is_space(#[trigger] text[i]) == spaces,
    ensures
        run_of(text, spaces) == n,
{
    lemma_run_of(text, spaces);
    let m = run_of(text, spaces);
    if m < n {
        assert(is_space(text[m as int]) == spaces);
    } else if n < m {
        assert(is_space(text[n as int]) == spaces);
    }
}

/// A text without the white space that it begins with.
pub open spec fn left_trimmed(text: Seq<char>) -> Seq<char> {
    text.skip(run_of(text, true) as int)
}

/// A text without the white space that it ends with.
pub open spec fn right_trimmed(text: Seq<char>) -> Seq<char>
    decreases text.len(),
{
    if text.len() > 0 && is_space(text.last()) {
        right_trimmed(text.drop_last())
    } else {
        text
    }
}

/// A text without the white space around it.
pub open spec fn trimmed(text: Seq<char>) -> Seq<char> {
    right_trimmed(left_trimmed(text))
}

/// A text without the occurrences of a character that it begins with.
pub open spec fn left_bare(text: Seq<char>, c: char) -> Seq<char>
    decreases text.len(),
{
    if text.len() > 0 && text[0] == c {
        left_bare(text.drop_first(), c)
    } else {
        text
    }
}

/// A text without the occurrences of a character that it ends with.
pub open spec fn right_bare(text: Seq<char>, c: char) -> Seq<char>
    decreases text.len(),
{
    if text.len() > 0 && text.last() == c {
        right_bare(text.drop_last(), c)
    } else {
        text
    }
}

/// A text without the occurrences of a character around it.
pub open spec fn bare(text: Seq<char>, c: char) -> Seq<char> {
    right_bare(left_bare(text, c), c)
}

/// The words of a text: its longest runs without white space.
pub open spec fn words(text: Seq<char>) -> Seq<Seq<char>>
    decreases text.len(),
    via words_decreases
{
    let rest = left_trimmed(text);
    if rest.len() == 0 {
        seq![]
    } else {
        let n = run_of(rest, false) as int;
        seq![rest.take(n)] + words(rest.skip(n))
    }
}

#[via_fn]
proof fn words_decreases(text: Seq<char>) {
    lemma_run_of(text, true);
    let rest = left_trimmed(text);
    lemma_run_of(rest, false);
    if rest.len() > 0 {
        assert(rest[0] == text[run_of(text, true) as int]);
    }
}

/// What follows a prefix.
pub open spec fn behind(text: Seq<char>, prefix: Seq<char>) -> Option<Seq<char>> {
    if prefix.is_prefix_of(text) {
        Some(text.skip(prefix.len() as int))
    } else {
        None
    }
}

/// What precedes a suffix.
pub open spec fn ahead(text: Seq<char>, suffix: Seq<char>) -> Option<Seq<char>> {
    if suffix.is_suffix_of(text) {
        Some(text.take(text.len() - suffix.len()))
    } else {
        None
    }
}

/// What follows a prefix in the first text that has it, from `i` on.
pub open spec fn first_behind(items: Seq<Seq<char>>, prefix: Seq<char>, i: int) -> Option<Seq<char>>
    decreases items.len() - i,
{
    if i < 0 || i >= items.len() {
        None
    } else {
        match behind(items[i], prefix) {
            Some(rest) => Some(rest),
            None => first_behind(items, prefix, i + 1),
        }
    }
}

/// The characters of a text.
pub fn chars_of(text: &str) -> (chars: Vec<char>)
    ensures
        chars@ == text@,
{
    broadcast use vstd::string::axiom_spec_iter;

    let mut chars: Vec<char> = Vec::new();
    for c in iter: text.chars()
        invariant
            iter.seq() == text@,
            chars@ == text@.take(iter.index() as int),
    {
        chars.push(c);
        assert(chars@ =~= text@.take(iter.index() as int + 1));
    }
    assert(text@.take(text@.len() as int) =~= text@);
    chars
}

/// Where a character first stands from `start` on.
fn find_char(chars: &Vec<char>, start: usize, c: char) -> (at: usize)
    requires
        start <= chars@.len(),
    ensures
        start <= at <= chars@.len(),
        at - start == first_at(chars@.skip(start as int), c),
{
    let ghost rest = chars@.skip(start as int);
    let mut at: usize = start;
    while at < chars.len() && chars[at] != c
        invariant
            start <= at <= chars@.len(),
            rest == chars@.skip(start as int),
            forall|i: int| 0 <= i < at - start ==> rest[i] != c,
        decreases chars@.len() - at,
    {
        assert(rest[at - start] == chars@[at as int]);
        at += 1;
    }
    proof {
        if at < chars@.len() {
            assert(rest[at - start] == chars@[at as int]);
        }
        lemma_first_is(rest, c, (at - start) as nat);
    }
    at
}

/// Where a run of white space, or of anything else, ends from `start` on.
fn run_end(chars: &Vec<char>, start: usize, spaces: bool) -> (at: usize)
    requires
        start <= chars@.len(),
    ensures
        start <= at <= chars@.len(),
        at - start == run_of(chars@.skip(start as int), spaces),
{
    let ghost rest = chars@.skip(start as int);
    let mut at: usize = start;
    while at < chars.len() && space(chars[at]) == spaces
        invariant
            start <= at <= chars@.len(),
            rest == chars@.skip(start as int),
            forall|i: int| 0 <= i < at - start ==> is_space(#[trigger] rest[i]) == spaces,
        decreases chars@.len() - at,
    {
        assert(rest[at - start] == chars@[at as int]);
        at += 1;
    }
    proof {
        if at < chars@.len() {
            assert(rest[at - start] == chars@[at as int]);
        }
        lemma_run_is(rest, spaces, (at - start) as nat);
    }
    at
}

/// What stands before and behind the first of a character.
pub fn split_once(text: &str, c: char) -> (halves: Option<(&str, &str)>)
    ensures
        match halves {
            Some((before, after)) => split_at_first(text@, c) == Some((before@, after@)),
            None => split_at_first(text@, c) is None,
        },
{
    let chars = chars_of(text);
    assert(chars@.skip(0) =~= text@);
    let at: usize = find_char(&chars, 0, c);
    if at == chars.len() {
        return None;
    }
    let before = text.substring_char(0, at);
    let after = text.substring_char(at + 1, chars.len());
    assert(before@ =~= text@.take(at as int));
    assert(after@ =~= text@.skip(at + 1));
    Some((before, after))
}

/// What stands before the first of a character.
pub fn until(text: &str, c: char) -> (before: &str)
    ensures
        before@ == before_first(text@, c),
{
    let chars = chars_of(text);
    assert(chars@.skip(0) =~= text@);
    let at: usize = find_char(&chars, 0, c);
    let before = text.substring_char(0, at);
    assert(before@ =~= text@.take(at as int));
    before
}

/// The pieces between the occurrences of a character.
pub fn split(text: &str, c: char) -> (parts: Vec<String>)
    ensures
        texts(parts@) == pieces(text@, c),
{
    let chars = chars_of(text);
    let size: usize = chars.len();
    let mut parts: Vec<String> = Vec::new();
    let mut start: usize = 0;
    assert(text@.skip(0) =~= text@);
    assert(texts(parts@) + pieces(text@, c) =~= pieces(text@, c));
    loop
        invariant
            chars@ == text@,
            size == chars@.len(),
            start <= size,
            pieces(text@, c) == texts(parts@) + pieces(text@.skip(start as int), c),
        decreases size - start,
    {
        let at: usize = find_char(&chars, start, c);
        let ghost rest = text@.skip(start as int);
        let ghost before = texts(parts@);
        let part = text.substring_char(start, at);
        parts.push(part.to_owned());
        assert(part@ =~= rest.take(at - start));
        assert(texts(parts@) =~= before.push(part@));
        if at == size {
            assert(rest.take(at - start) =~= rest);
            assert(texts(parts@) =~= pieces(text@, c));
            return parts;
        }
        start = at + 1;
        proof {
            let n = first_at(rest, c) as int;
            assert(rest.skip(n + 1) =~= text@.skip(start as int));
            assert(before + pieces(rest, c) =~= texts(parts@) + pieces(
                text@.skip(start as int),
                c,
            ));
        }
    }
}

/// The lines of a text.
pub fn split_lines(text: &str) -> (parts: Vec<String>)
    ensures
        texts(parts@) == lines(text@),
{
    let chars = chars_of(text);
    let size: usize = chars.len();
    let mut parts: Vec<String> = Vec::new();
    let mut start: usize = 0;
    assert(text@.skip(0) =~= text@);
    assert(texts(parts@) + lines(text@) =~= lines(text@));
    loop
        invariant
            chars@ == text@,
            size == chars@.len(),
            start <= size,
            lines(text@) == texts(parts@) + lines(text@.skip(start as int)),
        decreases size - start,
    {
        let at: usize = find_char(&chars, start, '\n');
        let ghost rest = text@.skip(start as int);
        let ghost before = texts(parts@);
        if at == size {
            if start < size {
                let part = text.substring_char(start, at);
                parts.push(part.to_owned());
                assert(part@ =~= rest);
                assert(texts(parts@) =~= before.push(part@));
            }
            assert(texts(parts@) =~= lines(text@));
            return parts;
        }
        let end: usize = if at > start && chars[at - 1] == '\r' {
            at - 1
        } else {
            at
        };
        let part = text.substring_char(start, end);
        parts.push(part.to_owned());
        proof {
            let line = rest.take(at - start);
            if at > start {
                assert(line.last() == chars@[at - 1]);
            }
            assert(part@ =~= without_return(line));
            assert(texts(parts@) =~= before.push(part@));
        }
        start = at + 1;
        proof {
            let n = first_at(rest, '\n') as int;
            assert(rest.skip(n + 1) =~= text@.skip(start as int));
            assert(before + lines(rest) =~= texts(parts@) + lines(text@.skip(start as int)));
        }
    }
}

/// The words of a text.
pub fn split_words(text: &str) -> (parts: Vec<String>)
    ensures
        texts(parts@) == words(text@),
{
    let chars = chars_of(text);
    let size: usize = chars.len();
    let mut parts: Vec<String> = Vec::new();
    let mut start: usize = 0;
    assert(text@.skip(0) =~= text@);
    assert(texts(parts@) + words(text@) =~= words(text@));
    loop
        invariant
            chars@ == text@,
            size == chars@.len(),
            start <= size,
            words(text@) == texts(parts@) + words(text@.skip(start as int)),
        decreases size - start,
    {
        let ghost rest = text@.skip(start as int);
        let ghost before = texts(parts@);
        let begin: usize = run_end(&chars, start, true);
        assert(left_trimmed(rest) =~= text@.skip(begin as int));
        if begin == size {
            assert(texts(parts@) =~= words(text@));
            return parts;
        }
        let end: usize = run_end(&chars, begin, false);
        proof {
            lemma_run_of(rest, true);
            let kept = left_trimmed(rest);
            lemma_run_of(kept, false);
            assert(kept[0] == rest[run_of(rest, true) as int]);
        }
        let part = text.substring_char(begin, end);
        parts.push(part.to_owned());
        proof {
            let kept = left_trimmed(rest);
            assert(part@ =~= kept.take(end - begin));
            assert(texts(parts@) =~= before.push(part@));
            assert(kept.skip(end - begin) =~= text@.skip(end as int));
            assert(before + words(rest) =~= texts(parts@) + words(text@.skip(end as int)));
        }
        start = end;
    }
}

/// A text without the white space around it.
pub fn trim(text: &str) -> (kept: &str)
    ensures
        kept@ == trimmed(text@),
{
    let chars = chars_of(text);
    assert(chars@.skip(0) =~= text@);
    let begin: usize = run_end(&chars, 0, true);
    let ghost left = left_trimmed(text@);
    assert(left =~= text@.subrange(begin as int, text@.len() as int));
    let mut end: usize = chars.len();
    while end > begin && space(chars[end - 1])
        invariant
            begin <= end <= chars@.len(),
            chars@ == text@,
            right_trimmed(left) == right_trimmed(text@.subrange(begin as int, end as int)),
        decreases end,
    {
        let ghost now = text@.subrange(begin as int, end as int);
        assert(now.last() == chars@[end - 1]);
        assert(now.drop_last() =~= text@.subrange(begin as int, end - 1));
        end -= 1;
    }
    proof {
        if end > begin {
            assert(text@.subrange(begin as int, end as int).last() == chars@[end - 1]);
        }
    }
    text.substring_char(begin, end)
}

/// A text without the occurrences of a character around it.
pub fn strip(text: &str, c: char) -> (kept: &str)
    ensures
        kept@ == bare(text@, c),
{
    let chars = chars_of(text);
    let mut begin: usize = 0;
    let size: usize = chars.len();
    assert(text@.subrange(0, size as int) =~= text@);
    while begin < size && chars[begin] == c
        invariant
            begin <= size == chars@.len(),
            chars@ == text@,
            left_bare(text@, c) == left_bare(text@.subrange(begin as int, size as int), c),
        decreases size - begin,
    {
        let ghost now = text@.subrange(begin as int, size as int);
        assert(now[0] == chars@[begin as int]);
        assert(now.drop_first() =~= text@.subrange(begin + 1, size as int));
        begin += 1;
    }
    let ghost left = left_bare(text@, c);
    assert(left =~= text@.subrange(begin as int, size as int)) by {
        if begin < size {
            assert(text@.subrange(begin as int, size as int)[0] == chars@[begin as int]);
        }
    }
    let mut end: usize = size;
    while end > begin && chars[end - 1] == c
        invariant
            begin <= end <= chars@.len(),
            chars@ == text@,
            right_bare(left, c) == right_bare(text@.subrange(begin as int, end as int), c),
        decreases end,
    {
        let ghost now = text@.subrange(begin as int, end as int);
        assert(now.last() == chars@[end - 1]);
        assert(now.drop_last() =~= text@.subrange(begin as int, end - 1));
        end -= 1;
    }
    proof {
        if end > begin {
            assert(text@.subrange(begin as int, end as int).last() == chars@[end - 1]);
        }
    }
    text.substring_char(begin, end)
}

/// What follows a prefix.
pub fn strip_prefix<'a>(text: &'a str, prefix: &str) -> (rest: Option<&'a str>)
    ensures
        match rest {
            Some(rest) => behind(text@, prefix@) == Some(rest@),
            None => behind(text@, prefix@) is None,
        },
{
    let size: usize = text.unicode_len();
    let lead: usize = prefix.unicode_len();
    if lead > size {
        return None;
    }
    let head = text.substring_char(0, lead);
    if same_text(head, prefix) {
        assert(prefix@ =~= text@.subrange(0, lead as int));
        let rest = text.substring_char(lead, size);
        assert(rest@ =~= text@.skip(lead as int));
        Some(rest)
    } else {
        assert(head@ =~= text@.subrange(0, lead as int));
        None
    }
}

/// What precedes a suffix.
pub fn strip_suffix<'a>(text: &'a str, suffix: &str) -> (rest: Option<&'a str>)
    ensures
        match rest {
            Some(rest) => ahead(text@, suffix@) == Some(rest@),
            None => ahead(text@, suffix@) is None,
        },
{
    let size: usize = text.unicode_len();
    let tail: usize = suffix.unicode_len();
    if tail > size {
        return None;
    }
    let end = text.substring_char(size - tail, size);
    if same_text(end, suffix) {
        assert(suffix@ =~= text@.subrange(size - tail, size as int));
        let rest = text.substring_char(0, size - tail);
        assert(rest@ =~= text@.take(size - tail));
        Some(rest)
    } else {
        assert(end@ =~= text@.subrange(size - tail, size as int));
        None
    }
}

/// What follows a prefix in the first text that has it.
pub fn find_behind(items: &Vec<String>, prefix: &str) -> (rest: Option<String>)
    ensures
        match rest {
            Some(rest) => first_behind(texts(items@), prefix@, 0) == Some(rest@),
            None => first_behind(texts(items@), prefix@, 0) is None,
        },
{
    let ghost all = texts(items@);
    let mut i: usize = 0;
    while i < items.len()
        invariant
            i <= items@.len(),
            all == texts(items@),
            first_behind(all, prefix@, 0) == first_behind(all, prefix@, i as int),
        decreases items@.len() - i,
    {
        assert(all[i as int] == items@[i as int]@);
        if let Some(rest) = strip_prefix(items[i].as_str(), prefix) {
            return Some(rest.to_owned());
        }
        i += 1;
    }
    None
}

/// Whether a text stands among others.
pub fn holds_text(items: &[String], text: &str) -> (r: bool)
    ensures
        r == texts(items@).contains(text@),
{
    let ghost all = texts(items@);
    let mut i: usize = 0;
    while i < items.len()
        invariant
            i <= items@.len(),
            all == texts(items@),
            forall|k: int| 0 <= k < i ==> #[trigger] all[k] != text@,
        decreases items@.len() - i,
    {
        assert(all[i as int] == items@[i as int]@);
        if same_text(items[i].as_str(), text) {
            return true;
        }
        i += 1;
    }
    false
}

/// Where a character last stands.
pub open spec fn last_at(text: Seq<char>, c: char) -> Option<int>
    decreases text.len(),
{
    if text.len() == 0 {
        None
    } else if text.last() == c {
        Some(text.len() - 1)
    } else {
        last_at(text.drop_last(), c)
    }
}

/// What stands before and behind the last of a character.
pub open spec fn split_at_last(text: Seq<char>, c: char) -> Option<(Seq<char>, Seq<char>)> {
    match last_at(text, c) {
        Some(n) => Some((text.take(n), text.skip(n + 1))),
        None => None,
    }
}

/// What stands before and behind the last of a character.
pub fn rsplit_once(text: &str, c: char) -> (halves: Option<(&str, &str)>)
    ensures
        match halves {
            Some((before, after)) => split_at_last(text@, c) == Some((before@, after@)),
            None => split_at_last(text@, c) is None,
        },
{
    let chars = chars_of(text);
    let size: usize = chars.len();
    let mut end: usize = size;
    assert(text@.take(size as int) =~= text@);
    while end > 0
        invariant
            end <= size == chars@.len(),
            chars@ == text@,
            last_at(text@, c) == last_at(text@.take(end as int), c),
        decreases end,
    {
        let ghost now = text@.take(end as int);
        assert(now.last() == chars@[end - 1]);
        assert(now.drop_last() =~= text@.take(end - 1));
        end -= 1;
        if chars[end] == c {
            let before = text.substring_char(0, end);
            let after = text.substring_char(end + 1, size);
            assert(before@ =~= text@.take(end as int));
            assert(after@ =~= text@.skip(end + 1));
            return Some((before, after));
        }
    }
    None
}

/// Texts with a separator between each two.
pub open spec fn joined_by(parts: Seq<Seq<char>>, separator: Seq<char>) -> Seq<char>
    decreases parts.len(),
{
    if parts.len() == 0 {
        seq![]
    } else if parts.len() == 1 {
        parts[0]
    } else {
        joined_by(parts.drop_last(), separator) + separator + parts.last()
    }
}

/// Joins texts with a separator between each two.
pub fn join_texts(parts: &[String], separator: &str) -> (text: String)
    ensures
        text@ == joined_by(texts(parts@), separator@),
{
    let ghost all = texts(parts@);
    let mut text = String::new();
    let mut i: usize = 0;
    assert(text@ =~= joined_by(all.take(0), separator@));
    while i < parts.len()
        invariant
            i <= parts@.len(),
            all == texts(parts@),
            text@ == joined_by(all.take(i as int), separator@),
        decreases parts@.len() - i,
    {
        let ghost next = all.take(i + 1);
        assert(next.drop_last() =~= all.take(i as int));
        assert(next.last() == parts@[i as int]@);
        if i > 0 {
            text.append(separator);
        }
        text.append(parts[i].as_str());
        i += 1;
        assert(text@ =~= joined_by(next, separator@));
    }
    assert(all.take(i as int) =~= all);
    text
}

/// Joined texts from the front.
proof fn lemma_joined_front(parts: Seq<Seq<char>>, separator: Seq<char>)
    requires
        parts.len() >= 2,
    ensures
        joined_by(parts, separator) == parts[0] + separator + joined_by(
            parts.drop_first(),
            separator,
        ),
    decreases parts.len(),
{
    let rest = parts.drop_first();
    if parts.len() == 2 {
        assert(parts.drop_last() =~= seq![parts[0]]);
        assert(joined_by(parts.drop_last(), separator) == parts[0]);
        assert(joined_by(rest, separator) == parts[1]);
        assert(parts.last() == parts[1]);
    } else {
        lemma_joined_front(parts.drop_last(), separator);
        assert(parts.drop_last().drop_first() =~= rest.drop_last());
        assert(rest.last() == parts.last());
        assert(joined_by(parts, separator) =~= parts[0] + separator + joined_by(rest, separator));
    }
}

/// What stands before and behind a separator that the front lacks.
pub(crate) proof fn lemma_split_front(front: Seq<char>, c: char, rest: Seq<char>)
    requires
        !front.contains(c),
    ensures
        split_at_first(front + seq![c] + rest, c) == Some((front, rest)),
{
    let text = front + seq![c] + rest;
    assert forall|i: int| 0 <= i < front.len() implies text[i] != c by {
        assert(front.contains(front[i]));
    }
    lemma_first_is(text, c, front.len());
    assert(text.take(front.len() as int) =~= front);
    assert(text.skip(front.len() as int + 1) =~= rest);
}

/// Pieces that are joined come apart again, where none of them holds the
/// separator.
pub proof fn law_pieces_come_apart(parts: Seq<Seq<char>>, c: char)
    requires
        parts.len() > 0,
        forall|i: int| 0 <= i < parts.len() ==> !(#[trigger] parts[i]).contains(c),
    ensures
        pieces(joined_by(parts, seq![c]), c) == parts,
    decreases parts.len(),
{
    let text = joined_by(parts, seq![c]);
    if parts.len() == 1 {
        lemma_first_at(text, c);
        assert(parts[0] == text);
        if first_at(text, c) < text.len() {
            assert(text.contains(text[first_at(text, c) as int]));
        }
        assert(pieces(text, c) =~= parts);
    } else {
        let rest = parts.drop_first();
        lemma_joined_front(parts, seq![c]);
        lemma_split_front(parts[0], c, joined_by(rest, seq![c]));
        assert forall|i: int| 0 <= i < rest.len() implies !(#[trigger] rest[i]).contains(c) by {
            assert(rest[i] == parts[i + 1]);
        }
        law_pieces_come_apart(rest, c);
        assert(pieces(text, c) =~= parts);
    }
}

/// Whether a text is one word.
pub open spec fn is_word(text: Seq<char>) -> bool {
    text.len() > 0 && forall|i: int| 0 <= i < text.len() ==> !is_space(#[trigger] text[i])
}

/// A word at the front comes off.
pub(crate) proof fn lemma_word_front(word: Seq<char>, rest: Seq<char>)
    requires
        is_word(word),
    ensures
        words(word + seq![' '] + rest) == seq![word] + words(seq![' '] + rest),
        words(seq![' '] + rest) == words(rest),
{
    let text = word + seq![' '] + rest;
    assert(text[0] == word[0]);
    lemma_run_is(text, true, 0);
    assert(left_trimmed(text) =~= text);
    assert forall|i: int| 0 <= i < word.len() implies is_space(#[trigger] text[i]) == false by {
        assert(text[i] == word[i]);
    }
    assert(text[word.len() as int] == ' ');
    lemma_run_is(text, false, word.len());
    assert(text.take(word.len() as int) =~= word);
    assert(text.skip(word.len() as int) =~= seq![' '] + rest);
    let spaced = seq![' '] + rest;
    assert(spaced.drop_first() =~= rest);
    assert(run_of(spaced, true) == 1 + run_of(rest, true));
    lemma_run_of(rest, true);
    assert(left_trimmed(spaced) =~= left_trimmed(rest));
}

/// Words that are joined by spaces come apart again.
pub proof fn law_words_come_apart(parts: Seq<Seq<char>>)
    requires
        forall|i: int| 0 <= i < parts.len() ==> is_word(#[trigger] parts[i]),
    ensures
        words(joined_by(parts, seq![' '])) == parts,
    decreases parts.len(),
{
    let text = joined_by(parts, seq![' ']);
    if parts.len() == 0 {
        assert(left_trimmed(text) =~= text);
        assert(words(text) =~= parts);
    } else if parts.len() == 1 {
        assert(is_word(parts[0]));
        lemma_run_is(text, true, 0);
        assert(left_trimmed(text) =~= text);
        lemma_run_is(text, false, text.len());
        assert(text.take(text.len() as int) =~= text);
        let rest = text.skip(text.len() as int);
        assert(rest =~= seq![]);
        assert(left_trimmed(rest) =~= seq![]);
        assert(words(rest) =~= seq![]);
        assert(words(text) =~= parts);
    } else {
        let rest = parts.drop_first();
        lemma_joined_front(parts, seq![' ']);
        assert(is_word(parts[0]));
        lemma_word_front(parts[0], joined_by(rest, seq![' ']));
        assert forall|i: int| 0 <= i < rest.len() implies is_word(#[trigger] rest[i]) by {
            assert(rest[i] == parts[i + 1]);
        }
        law_words_come_apart(rest);
        assert(words(text) =~= parts);
    }
}

} // verus!
