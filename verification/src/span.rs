//! Ranges of source text, and values that remember where they came from.

use std::rc::Rc;
use vstd::prelude::*;
use crate::source::{Source, SourceModel, chars_within, line_breaks, line_start, line_end,
    count_chars_within, locate_line, lemma_chars_within_bound};
use crate::text::{decimal, repeated, push_char, push_decimal, push_repeated, push_text};

verus! {

/// A range of bytes in a source: where it starts and how long it is.
/// The empty span belongs to no source and has no length.
#[derive(Debug, PartialEq, Eq)]
pub struct Span {
    source: Option<Rc<Source>>,
    offset: usize,
    length: usize,
}

/// What a `Span` holds.
pub ghost struct SpanModel {
    pub source: Option<SourceModel>,
    pub offset: nat,
    pub length: nat,
}

impl SpanModel {
    /// The span that belongs to no source.
    pub open spec fn empty() -> SpanModel {
        SpanModel { source: None, offset: 0, length: 0 }
    }

    /// Whether the span belongs to no source.
    pub open spec fn is_empty(self) -> bool {
        self.source is None
    }

    /// The offset just past the span, as far as offsets reach.
    pub open spec fn end(self) -> nat {
        if self.offset + self.length > usize::MAX {
            usize::MAX as nat
        } else {
            self.offset + self.length
        }
    }

    /// The smallest span that covers both spans.
    /// An empty span adds nothing; the source is that of the first span.
    pub open spec fn combine(self, other: SpanModel) -> SpanModel {
        if self.is_empty() {
            other
        } else if other.is_empty() {
            self
        } else {
            let offset = if self.offset <= other.offset {
                self.offset
            } else {
                other.offset
            };
            let end = if self.end() >= other.end() {
                self.end()
            } else {
                other.end()
            };
            SpanModel { source: self.source, offset, length: (end - offset) as nat }
        }
    }

    /// The smallest span that covers all the spans, the last of them combined with
    /// those before it in turn.
    pub open spec fn join(spans: Seq<SpanModel>) -> SpanModel
        decreases spans.len(),
    {
        if spans.len() == 0 {
            SpanModel::empty()
        } else {
            SpanModel::join(spans.drop_first()).combine(spans[0])
        }
    }

    /// The index of the character that the span starts at.
    pub open spec fn first_char(self) -> nat {
        chars_within(self.source.unwrap().contents, self.offset)
    }

    /// The line of the source that the span starts on, without its line break.
    pub open spec fn line_text(self) -> Seq<char> {
        let text = self.source.unwrap().contents;
        let at = self.first_char() as int;
        text.subrange(line_start(text, at), line_end(text, at))
    }

    /// The number of the line that the span starts on; the first line is line one.
    pub open spec fn line_number(self) -> nat {
        let text = self.source.unwrap().contents;
        line_breaks(text.take(self.first_char() as int)) + 1
    }

    /// How many characters stand before the span on its line.
    pub open spec fn column(self) -> nat {
        let text = self.source.unwrap().contents;
        let at = self.first_char() as int;
        (at - line_start(text, at)) as nat
    }

    /// How many characters of its first line the span covers.
    pub open spec fn marked(self) -> nat {
        let text = self.source.unwrap().contents;
        let at = self.first_char() as int;
        let until = chars_within(text, self.end()) as int;
        let stop = line_end(text, at);
        if until <= at {
            0
        } else if until <= stop {
            (until - at) as nat
        } else {
            (stop - at) as nat
        }
    }

    /// The width of the margin that holds the line number.
    pub open spec fn margin(self) -> nat {
        decimal(self.line_number()).len()
    }

    /// The line that names the place: the source, the line and the column.
    pub open spec fn heading(self) -> Seq<char> {
        "In "@ + self.source.unwrap().path + ":"@ + decimal(self.line_number()) + ":"@ + decimal(
            self.column() + 1,
        ) + "\n"@
    }

    /// The line with nothing but the bar, after the margin.
    pub open spec fn separator(self) -> Seq<char> {
        seq![' '] + repeated(' ', self.margin()) + " |\n"@
    }

    /// The line of source that the span starts on, after its number.
    pub open spec fn numbered_line(self) -> Seq<char> {
        seq![' '] + decimal(self.line_number()) + " | "@ + self.line_text() + "\n"@
    }

    /// The line that marks the span under the line of source.
    pub open spec fn marker_line(self) -> Seq<char> {
        seq![' '] + repeated(' ', self.margin()) + " | "@ + repeated(' ', self.column())
            + repeated('^', self.marked()) + "\n"@
    }

    /// The excerpt that shows where the span lies in its source:
    /// the place, then the line that the span starts on with the span marked under it.
    /// An empty span has no excerpt.
    pub open spec fn excerpt(self) -> Seq<char> {
        if self.is_empty() {
            Seq::empty()
        } else {
            self.heading() + self.separator() + self.numbered_line() + self.marker_line()
                + self.separator()
        }
    }
}

impl View for Span {
    type V = SpanModel;

    closed spec fn view(&self) -> SpanModel {
        SpanModel {
            source: match self.source {
                Some(source) => Some(source@),
                None => None,
            },
            offset: self.offset as nat,
            length: self.length as nat,
        }
    }
}

/// Another handle on the same source.
/// This is `Rc::clone`, of which Verus is told that the new handle is equal to the old one.
#[verifier::external_body]
fn share(source: &Rc<Source>) -> (shared: Rc<Source>)
    ensures
        shared == *source,
{
    Rc::clone(source)
}

impl Clone for Span {
    fn clone(&self) -> (span: Span)
        ensures
            span == *self,
    {
        proof {
            use_type_invariant(self);
        }
        let source = match &self.source {
            Some(source) => Some(share(source)),
            None => None,
        };
        Span { source, offset: self.offset, length: self.length }
    }
}

impl Span {
    #[verifier::type_invariant]
    spec fn well_formed(self) -> bool {
        self.source is None ==> self.offset == 0 && self.length == 0
    }

    /// The span of `length` bytes that starts at `offset` in `source`.
    pub fn new(source: &Rc<Source>, offset: usize, length: usize) -> (span: Span)
        ensures
            span@ == (SpanModel {
                source: Some(source@),
                offset: offset as nat,
                length: length as nat,
            }),
    {
        Span { source: Some(share(source)), offset, length }
    }

    /// The span of the single byte at `offset` in `source`.
    pub fn point(source: &Rc<Source>, offset: usize) -> (span: Span)
        ensures
            span@ == (SpanModel { source: Some(source@), offset: offset as nat, length: 1 }),
    {
        Span::new(source, offset, 1)
    }

    /// The span that belongs to no source.
    pub fn empty() -> (span: Span)
        ensures
            span@ == SpanModel::empty(),
    {
        Span { source: None, offset: 0, length: 0 }
    }

    /// Whether the span belongs to no source.
    pub fn is_empty(&self) -> (empty: bool)
        ensures
            empty == self@.is_empty(),
            empty ==> self@ == SpanModel::empty(),
    {
        proof {
            use_type_invariant(self);
        }
        self.source.is_none()
    }

    /// Whether two spans cover the same range of the same source text.
    pub fn same(&self, other: &Span) -> (same: bool)
        ensures
            same == (self@ == other@),
    {
        if self.offset != other.offset || self.length != other.length {
            return false;
        }
        match (&self.source, &other.source) {
            (None, None) => true,
            (Some(a), Some(b)) => a.contents == b.contents && a.path == b.path,
            _ => false,
        }
    }

    /// Where the span starts.
    pub fn offset(&self) -> (offset: usize)
        ensures
            offset == self@.offset,
    {
        self.offset
    }

    /// How many bytes the span covers.
    pub fn length(&self) -> (length: usize)
        ensures
            length == self@.length,
    {
        self.length
    }

    /// The offset just past the span, as far as offsets reach.
    pub fn end(&self) -> (end: usize)
        ensures
            end == self@.end(),
    {
        self.offset.saturating_add(self.length)
    }

    /// The smallest span that covers both spans.
    pub fn combine(a: &Span, b: &Span) -> (span: Span)
        ensures
            span@ == a@.combine(b@),
    {
        proof {
            use_type_invariant(a);
            use_type_invariant(b);
        }
        if a.is_empty() {
            return b.clone();
        }
        if b.is_empty() {
            return a.clone();
        }
        let offset: usize = if a.offset <= b.offset {
            a.offset
        } else {
            b.offset
        };
        let a_end: usize = a.end();
        let b_end: usize = b.end();
        let end: usize = if a_end >= b_end {
            a_end
        } else {
            b_end
        };
        let source = match &a.source {
            Some(source) => Some(share(source)),
            None => None,
        };
        Span { source, offset, length: end - offset }
    }

    /// The smallest span that covers all the spans.
    pub fn join(spans: Vec<Span>) -> (span: Span)
        ensures
            span@ == SpanModel::join(Seq::new(spans@.len(), |i: int| spans@[i]@)),
    {
        let ghost all = Seq::new(spans@.len(), |i: int| spans@[i]@);
        let mut joined = Span::empty();
        let mut left: usize = spans.len();
        assert(all.skip(left as int) =~= Seq::empty());
        while left > 0
            invariant
                left <= spans.len(),
                all == Seq::new(spans@.len(), |i: int| spans@[i]@),
                joined@ == SpanModel::join(all.skip(left as int)),
            decreases left,
        {
            left = left - 1;
            assert(all.skip(left as int).drop_first() =~= all.skip(left + 1));
            assert(all.skip(left as int)[0] == spans@[left as int]@);
            joined = Span::combine(&joined, &spans[left]);
        }
        assert(all.skip(0) =~= all);
        joined
    }

    /// The excerpt that shows where the span lies in its source.
    /// An empty span has no excerpt.
    pub fn excerpt(&self) -> (text: String)
        ensures
            text@ == self@.excerpt(),
    {
        let mut text = String::new();
        self.push_excerpt(&mut text);
        assert(Seq::<char>::empty() + self@.excerpt() =~= self@.excerpt());
        text
    }

    /// Appends the span's excerpt to `text`.
    pub fn push_excerpt(&self, text: &mut String)
        ensures
            final(text)@ == old(text)@ + self@.excerpt(),
    {
        match &self.source {
            None => {
                assert(old(text)@ + self@.excerpt() =~= old(text)@);
            },
            Some(source) => {
                let contents = source.contents.as_str();
                let at: usize = count_chars_within(contents, self.offset);
                let until: usize = count_chars_within(contents, self.end());
                proof {
                    lemma_chars_within_bound(contents@, self.offset as nat);
                    lemma_chars_within_bound(contents@, self@.end());
                }
                let (line, start, stop) = locate_line(contents, at);
                let marked: usize = if until <= at {
                    0
                } else if until <= stop {
                    until - at
                } else {
                    stop - at
                };
                let mut digits = String::new();
                push_decimal(&mut digits, line as u128 + 1);
                assert(digits@ =~= decimal(self@.line_number()));
                let margin: usize = digits.as_str().unicode_len();
                let ghost before = text@;
                self.push_heading(text, source.path.as_str(), digits.as_str(), at - start);
                self.push_separator(text, margin);
                self.push_numbered_line(text, digits.as_str(), contents.substring_char(start, stop));
                self.push_marker_line(text, margin, at - start, marked);
                self.push_separator(text, margin);
                assert(text@ =~= before + self@.excerpt());
            },
        }
    }

    fn push_heading(&self, text: &mut String, path: &str, digits: &str, column: usize)
        requires
            !self@.is_empty(),
            path@ == self@.source.unwrap().path,
            digits@ == decimal(self@.line_number()),
            column == self@.column(),
        ensures
            final(text)@ == old(text)@ + self@.heading(),
    {
        push_text(text, "In ");
        push_text(text, path);
        push_text(text, ":");
        push_text(text, digits);
        push_text(text, ":");
        push_decimal(text, column as u128 + 1);
        push_text(text, "\n");
        assert(text@ =~= old(text)@ + self@.heading());
    }

    fn push_separator(&self, text: &mut String, margin: usize)
        requires
            !self@.is_empty(),
            margin == self@.margin(),
        ensures
            final(text)@ == old(text)@ + self@.separator(),
    {
        push_char(text, ' ');
        push_repeated(text, ' ', margin);
        push_text(text, " |\n");
        assert(text@ =~= old(text)@ + self@.separator());
    }

    fn push_numbered_line(&self, text: &mut String, digits: &str, line: &str)
        requires
            !self@.is_empty(),
            digits@ == decimal(self@.line_number()),
            line@ == self@.line_text(),
        ensures
            final(text)@ == old(text)@ + self@.numbered_line(),
    {
        push_char(text, ' ');
        push_text(text, digits);
        push_text(text, " | ");
        push_text(text, line);
        push_text(text, "\n");
        assert(text@ =~= old(text)@ + self@.numbered_line());
    }

    fn push_marker_line(&self, text: &mut String, margin: usize, column: usize, marked: usize)
        requires
            !self@.is_empty(),
            margin == self@.margin(),
            column == self@.column(),
            marked == self@.marked(),
        ensures
            final(text)@ == old(text)@ + self@.marker_line(),
    {
        push_char(text, ' ');
        push_repeated(text, ' ', margin);
        push_text(text, " | ");
        push_repeated(text, ' ', column);
        push_repeated(text, '^', marked);
        push_text(text, "\n");
        assert(text@ =~= old(text)@ + self@.marker_line());
    }
}

/// A value together with the span of source that it was read from.
#[derive(Debug, PartialEq, Eq)]
pub struct Spanned<T> {
    pub item: T,
    pub span: Span,
}

/// What a `Spanned` holds.
pub ghost struct SpannedModel<T> {
    pub item: T,
    pub span: SpanModel,
}

impl<T: View> View for Spanned<T> {
    type V = SpannedModel<T::V>;

    open spec fn view(&self) -> SpannedModel<T::V> {
        SpannedModel { item: self.item@, span: self.span@ }
    }
}

impl<T: Clone> Clone for Spanned<T> {
    fn clone(&self) -> (copy: Spanned<T>)
        ensures
            copy.span == self.span,
            cloned(self.item, copy.item),
    {
        Spanned { item: self.item.clone(), span: self.span.clone() }
    }
}

impl<T> Spanned<T> {
    /// Ties a value to the span that it was read from.
    pub fn new(item: T, span: Span) -> (spanned: Spanned<T>)
        ensures
            spanned.item == item,
            spanned.span == span,
    {
        Spanned { item, span }
    }

    /// The smallest span that covers all the values.
    pub fn build(spanneds: &Vec<Spanned<T>>) -> (span: Span)
        ensures
            span@ == SpanModel::join(Seq::new(spanneds@.len(), |i: int| spanneds@[i].span@)),
    {
        let ghost all = Seq::new(spanneds@.len(), |i: int| spanneds@[i].span@);
        let mut joined = Span::empty();
        let mut left: usize = spanneds.len();
        assert(all.skip(left as int) =~= Seq::empty());
        while left > 0
            invariant
                left <= spanneds.len(),
                all == Seq::new(spanneds@.len(), |i: int| spanneds@[i].span@),
                joined@ == SpanModel::join(all.skip(left as int)),
            decreases left,
        {
            left = left - 1;
            assert(all.skip(left as int).drop_first() =~= all.skip(left + 1));
            assert(all.skip(left as int)[0] == spanneds@[left as int].span@);
            joined = Span::combine(&joined, &spanneds[left].span);
        }
        assert(all.skip(0) =~= all);
        joined
    }
}

} // verus!
