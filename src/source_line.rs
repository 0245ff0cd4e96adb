//! Classification of one line of a source list.
use vstd::prelude::*;

use crate::errors::{grammar_view, GrammarError, SourceError, SourceResult};
use crate::source_entry::{
    entry_text, formattable, lemma_parse_entry_words, lemma_text_words, parse_entry, EntryView,
    SourceEntry,
};
use crate::text::{
    lemma_split_front_ws, lemma_split_trim_end, lemma_split_trimmed, lemma_trim_end_front, trim,
    trim_end, trim_start, trimmed,
};

verus! {

/// A line from an apt source list.
#[derive(Clone, Debug, PartialEq, Eq)]
pub enum SourceLine {
    /// A comment, kept verbatim.
    Comment(String),
    /// A blank line.
    Empty,
    /// An entry, enabled or disabled.
    Entry(SourceEntry),
}

/// What a `SourceLine` holds, as plain values.
pub ghost enum LineView {
    Comment(Seq<char>),
    Empty,
    Entry(EntryView),
}

impl View for SourceLine {
    type V = LineView;

    open spec fn view(&self) -> LineView {
        match self {
            SourceLine::Comment(c) => LineView::Comment(c@),
            SourceLine::Empty => LineView::Empty,
            SourceLine::Entry(e) => LineView::Entry(e@),
        }
    }
}

/// What the raw line `line` is.
///
/// The line is trimmed first. One that starts with `#` is a disabled entry
/// when what follows the `#`, trimmed, parses as an entry, and a comment
/// holding the trimmed line otherwise. A blank line is empty. Any other line
/// must parse as an entry.
pub open spec fn classify(line: Seq<char>) -> Result<LineView, GrammarError> {
    let t = trimmed(line);
    if t.len() > 0 && t[0] == '#' {
        match parse_entry(trimmed(t.drop_first())) {
            Ok(e) => Ok(LineView::Entry(EntryView { enabled: false, ..e })),
            Err(_) => Ok(LineView::Comment(t)),
        }
    } else if t.len() == 0 {
        Ok(LineView::Empty)
    } else {
        match parse_entry(t) {
            Ok(e) => Ok(LineView::Entry(e)),
            Err(g) => Err(g),
        }
    }
}

/// The text that states the line `l`.
pub open spec fn line_text(l: LineView) -> Seq<char> {
    match l {
        LineView::Comment(c) => c,
        LineView::Empty => seq![],
        LineView::Entry(e) => entry_text(e),
    }
}

/// Whether `r` is the outcome that `expected` describes.
pub open spec fn classified_as(
    r: SourceResult<SourceLine>,
    expected: Result<LineView, GrammarError>,
) -> bool {
    match expected {
        Ok(v) => r is Ok && r->Ok_0@ == v,
        Err(g) => r is Err && grammar_view(r->Err_0) == Some(g),
    }
}

proof fn lemma_text_shape(e: EntryView)
    ensures
        entry_text(EntryView { enabled: true, ..e }).len() > 0,
        entry_text(EntryView { enabled: true, ..e })[0] == 'd',
        !e.enabled ==> entry_text(e) =~= seq!['#', ' '] + entry_text(EntryView { enabled: true, ..e }),
        e.enabled ==> entry_text(e) == entry_text(EntryView { enabled: true, ..e }),
{
    reveal_strlit("deb ");
    reveal_strlit("deb-src ");
    reveal_strlit("# ");
    assert(e.enabled ==> e == EntryView { enabled: true, ..e });
}

/// Formatting any entry that `formattable` admits, enabled or disabled, and
/// classifying the line gives the entry back.
pub proof fn lemma_line_round_trip(e: EntryView)
    requires
        formattable(e),
    ensures
        classify(line_text(LineView::Entry(e))) == Ok::<LineView, GrammarError>(LineView::Entry(e)),
{
    let on = EntryView { enabled: true, ..e };
    let body = entry_text(on);
    lemma_text_words(e);
    lemma_parse_entry_words(e);
    lemma_text_shape(e);
    let rest = body.drop_first();
    assert(seq!['d'] + rest =~= body);
    if e.enabled {
        assert(on == e);
        let text = entry_text(e);
        assert(trim_start(text) == text);
        lemma_trim_end_front('d', rest);
        lemma_split_trimmed(text);
        assert(trimmed(text)[0] == 'd');
    } else {
        let text = entry_text(e);
        let tail = seq![' '] + body;
        assert(text =~= seq!['#'] + tail);
        assert(trim_start(text) == text);
        lemma_trim_end_front('#', tail);
        let t = trimmed(text);
        assert(t[0] == '#');
        assert(t.drop_first() =~= trim_end(tail));
        lemma_split_trimmed(trim_end(tail));
        lemma_split_trim_end(tail);
        lemma_split_front_ws(' ', body);
        assert(EntryView { enabled: false, ..on } == e);
    }
}

impl SourceLine {
    /// Parses a single line within an apt source list file.
    pub fn parse_line(line: &str) -> (r: SourceResult<Self>)
        ensures
            classified_as(r, classify(line@)),
    {
        let line = trim(line);
        let n = line.unicode_len();
        if n > 0 && line.get_char(0) == '#' {
            let inner = trim(line.substring_char(1, n));
            assert(line@.subrange(1, n as int) =~= line@.drop_first());
            match SourceEntry::parse_line(inner) {
                Ok(mut entry) => {
                    entry.enabled = false;
                    Ok(SourceLine::Entry(entry))
                },
                Err(_) => Ok(SourceLine::Comment(String::from_str(line))),
            }
        } else if n == 0 {
            Ok(SourceLine::Empty)
        } else {
            match SourceEntry::parse_line(line) {
                Ok(entry) => Ok(SourceLine::Entry(entry)),
                Err(e) => Err(e),
            }
        }
    }

    /// The text that states this line.
    pub fn to_string(&self) -> (r: String)
        ensures
            r@ == line_text(self@),
    {
        match self {
            SourceLine::Comment(c) => c.clone(),
            SourceLine::Empty => String::new(),
            SourceLine::Entry(e) => e.to_string(),
        }
    }
}

impl std::str::FromStr for SourceLine {
    type Err = SourceError;

    fn from_str(line: &str) -> (r: Result<Self, Self::Err>)
        ensures
            classified_as(r, classify(line@)),
    {
        SourceLine::parse_line(line)
    }
}

} // verus!
