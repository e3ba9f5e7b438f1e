//! Source text, and how positions in it are found.

use vstd::prelude::*;

verus! {

/// A piece of source code and the name of the place it came from.
#[derive(Debug, PartialEq, Eq)]
pub struct Source {
    pub contents: String,
    pub path: String,
}

/// What a `Source` holds.
pub ghost struct SourceModel {
    pub contents: Seq<char>,
    pub path: Seq<char>,
}

impl View for Source {
    type V = SourceModel;

    open spec fn view(&self) -> SourceModel {
        SourceModel { contents: self.contents@, path: self.path@ }
    }
}

impl Source {
    /// A source with the given text, named after the given path.
    pub fn new(contents: &str, path: &str) -> (source: Source)
        ensures
            source@ == (SourceModel { contents: contents@, path: path@ }),
    {
        Source { contents: contents.to_owned(), path: path.to_owned() }
    }

    /// A source that was not read from a file.
    pub fn source(contents: &str) -> (source: Source)
        ensures
            source@ == (SourceModel { contents: contents@, path: "./source"@ }),
    {
        Source::new(contents, "./source")
    }
}

/// How many bytes a character takes up in the source text.
pub open spec fn char_width(c: char) -> nat {
    if (c as u32) < 0x80 {
        1
    } else if (c as u32) < 0x800 {
        2
    } else if (c as u32) < 0x10000 {
        3
    } else {
        4
    }
}

/// How many whole characters from the front of `text` fit in its first `bytes` bytes.
/// This is the index of the character that a byte offset points at or into,
/// and the length of `text` for an offset past its end.
pub open spec fn chars_within(text: Seq<char>, bytes: nat) -> nat
    decreases text.len(),
{
    if text.len() == 0 || char_width(text[0]) > bytes {
        0
    } else {
        1 + chars_within(text.drop_first(), (bytes - char_width(text[0])) as nat)
    }
}

/// How many line breaks `text` holds.
pub open spec fn line_breaks(text: Seq<char>) -> nat
    decreases text.len(),
{
    if text.len() == 0 {
        0
    } else if text.last() == '\n' {
        line_breaks(text.drop_last()) + 1
    } else {
        line_breaks(text.drop_last())
    }
}

/// Where the line begins that the character at index `at` stands on.
pub open spec fn line_start(text: Seq<char>, at: int) -> int
    decreases at,
{
    if at <= 0 {
        0
    } else if text[at - 1] == '\n' {
        at
    } else {
        line_start(text, at - 1)
    }
}

/// Where the line ends that the character at index `at` stands on:
/// the index of the next line break, or the length of `text`.
pub open spec fn line_end(text: Seq<char>, at: int) -> int
    decreases text.len() - at,
{
    if at >= text.len() {
        text.len() as int
    } else if text[at] == '\n' {
        at
    } else {
        line_end(text, at + 1)
    }
}

/// No more characters fit than there are.
pub proof fn lemma_chars_within_bound(text: Seq<char>, bytes: nat)
    ensures
        chars_within(text, bytes) <= text.len(),
    decreases text.len(),
{
    if !(text.len() == 0 || char_width(text[0]) > bytes) {
        lemma_chars_within_bound(text.drop_first(), (bytes - char_width(text[0])) as nat);
    }
}

/// A line begins at or before each of its characters and ends at or after it,
/// and no more line breaks stand before a character than characters do.
pub proof fn lemma_line_bounds(text: Seq<char>, at: int)
    requires
        0 <= at <= text.len(),
    ensures
        0 <= line_start(text, at) <= at <= line_end(text, at) <= text.len(),
        line_breaks(text.take(at)) <= at,
{
    lemma_line_start_bound(text, at);
    lemma_line_end_bound(text, at);
    lemma_line_breaks_bound(text.take(at));
}

proof fn lemma_line_start_bound(text: Seq<char>, at: int)
    requires
        0 <= at <= text.len(),
    ensures
        0 <= line_start(text, at) <= at,
    decreases at,
{
    if at > 0 && text[at - 1] != '\n' {
        lemma_line_start_bound(text, at - 1);
    }
}

proof fn lemma_line_end_bound(text: Seq<char>, at: int)
    requires
        0 <= at <= text.len(),
    ensures
        at <= line_end(text, at) <= text.len(),
    decreases text.len() - at,
{
    if at < text.len() && text[at] != '\n' {
        lemma_line_end_bound(text, at + 1);
    }
}

proof fn lemma_line_breaks_bound(text: Seq<char>)
    ensures
        line_breaks(text) <= text.len(),
    decreases text.len(),
{
    if text.len() > 0 {
        lemma_line_breaks_bound(text.drop_last());
    }
}

/// How many bytes a character takes up in the source text.
pub fn width_of(c: char) -> (width: usize)
    ensures
        width == char_width(c),
{
    let code: u32 = c as u32;
    if code < 0x80 {
        1
    } else if code < 0x800 {
        2
    } else if code < 0x10000 {
        3
    } else {
        4
    }
}

/// Counts the whole characters of `text` that fit in its first `bytes` bytes.
pub fn count_chars_within(text: &str, bytes: usize) -> (count: usize)
    ensures
        count == chars_within(text@, bytes as nat),
{
    let total: usize = text.unicode_len();
    let mut count: usize = 0;
    let mut left: usize = bytes;
    let mut fitting = true;
    assert(text@.skip(0) =~= text@);
    for c in it: text.chars()
        invariant
            it.seq() == text@,
            total == text@.len(),
            fitting ==> count == it.index(),
            count <= it.index(),
            chars_within(text@, bytes as nat) == if fitting {
                count + chars_within(text@.skip(it.index() as int), left as nat)
            } else {
                count as int
            },
    {
        let ghost at = it.index() as int;
        assert(c == text@[at]);
        assert(text@.skip(at)[0] == c);
        assert(text@.skip(at).drop_first() =~= text@.skip(at + 1));
        if fitting {
            let width: usize = width_of(c);
            if width <= left {
                count = count + 1;
                left = left - width;
            } else {
                fitting = false;
            }
        }
    }
    count
}

/// Finds the line that the character at index `at` stands on:
/// its number, counted from zero, where it begins and where it ends.
pub fn locate_line(text: &str, at: usize) -> (r: (usize, usize, usize))
    requires
        at <= text@.len(),
    ensures
        r.0 == line_breaks(text@.take(at as int)),
        r.1 == line_start(text@, at as int),
        r.2 == line_end(text@, at as int),
        r.0 <= at,
        r.1 <= at <= r.2 <= text@.len(),
{
    let total: usize = text.unicode_len();
    let mut number: usize = 0;
    let mut start: usize = 0;
    let mut end: usize = total;
    let mut ended = false;
    let mut index: usize = 0;
    proof {
        lemma_line_bounds(text@, at as int);
    }
    for c in it: text.chars()
        invariant
            it.seq() == text@,
            total == text@.len(),
            at <= total,
            index == it.index(),
            index <= at ==> number == line_breaks(text@.take(index as int)) && start == line_start(
                text@,
                index as int,
            ) && number <= index && start <= index,
            index > at ==> number == line_breaks(text@.take(at as int)) && start == line_start(
                text@,
                at as int,
            ),
            index <= at ==> !ended,
            ended ==> end == line_end(text@, at as int),
            !ended && index >= at ==> line_end(text@, at as int) == line_end(text@, index as int),
            !ended ==> end == total,
    {
        assert(c == text@[index as int]);
        assert(text@.take(index + 1).drop_last() =~= text@.take(index as int));
        if index < at {
            if c == '\n' {
                number = number + 1;
                start = index + 1;
            }
        } else if !ended {
            if c == '\n' {
                end = index;
                ended = true;
            }
        }
        index = index + 1;
    }
    (number, start, end)
}

} // verus!
