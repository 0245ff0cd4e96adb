//! One source list file: its lines, their parsing and their text.
use vstd::prelude::*;

use crate::errors::{grammar_view, GrammarError, SourceError, SourceResult, SourcesListError};
use crate::source_entry::{entry_text, EntryView, SourceEntry};
use crate::source_line::{classify, line_text, LineView, SourceLine};
use crate::text::{lines, lines_of, replace, replace_all, same_text, starts_with, views};

verus! {

/// One source list file: its path and its lines, in file order.
#[derive(Clone, Debug, Default)]
pub struct SourcesList {
    pub path: String,
    pub lines: Vec<SourceLine>,
}

/// What a `SourcesList` holds, as plain values.
pub ghost struct ListView {
    pub path: Seq<char>,
    pub lines: Seq<LineView>,
}

/// The plain values of a sequence of lines.
pub open spec fn line_views(v: Seq<SourceLine>) -> Seq<LineView> {
    v.map_values(|l: SourceLine| l@)
}

impl View for SourcesList {
    type V = ListView;

    open spec fn view(&self) -> ListView {
        ListView { path: self.path@, lines: line_views(self.lines@) }
    }
}

/// The lines that the raw lines `ls` are, or the 0-based number of the first
/// one that is not a line of a source list, with its failure.
pub open spec fn parse_lines(ls: Seq<Seq<char>>) -> Result<Seq<LineView>, (nat, GrammarError)>
    decreases ls.len(),
{
    if ls.len() == 0 {
        Ok(seq![])
    } else {
        match parse_lines(ls.drop_last()) {
            Err(e) => Err(e),
            Ok(v) => match classify(ls.last()) {
                Ok(l) => Ok(v.push(l)),
                Err(g) => Err(((ls.len() - 1) as nat, g)),
            },
        }
    }
}

/// The lines of the text `input`.
pub open spec fn parse_text(input: Seq<char>) -> Result<Seq<LineView>, (nat, GrammarError)> {
    parse_lines(lines_of(input))
}

/// The line number and grammar failure that `e` reports.
pub open spec fn bad_line_view(e: SourcesListError) -> (nat, Option<GrammarError>) {
    match e {
        SourcesListError::BadLine { line, why } => (line as nat, grammar_view(why)),
    }
}

/// Whether `e` reports that line `no` of the file at `path` failed with `g`.
pub open spec fn reports_bad_line(e: SourceError, path: Seq<char>, no: nat, g: GrammarError) -> bool {
    match e {
        SourceError::SourcesList { path: p, why } => p@ == path && bad_line_view(*why) == (
            no,
            Some(g),
        ),
        _ => false,
    }
}

/// The text of a file with the lines `v`: each line followed by a newline.
pub open spec fn list_text(v: Seq<LineView>) -> Seq<char>
    decreases v.len(),
{
    if v.len() == 0 {
        seq![]
    } else {
        list_text(v.drop_last()) + line_text(v.last()) + "\n"@
    }
}

/// Whether `l` is an entry, enabled or not, with the url `url`.
pub open spec fn has_url(l: LineView, url: Seq<char>) -> bool {
    match l {
        LineView::Entry(e) => e.url == url,
        _ => false,
    }
}

/// The position of the first entry of `v` with the url `url`.
pub open spec fn first_url(v: Seq<LineView>, url: Seq<char>) -> Option<int>
    decreases v.len(),
{
    if v.len() == 0 {
        None
    } else {
        match first_url(v.drop_last(), url) {
            Some(i) => Some(i),
            None => if has_url(v.last(), url) {
                Some(v.len() - 1)
            } else {
                None
            },
        }
    }
}

/// `first_url` finds the first entry with the url, and only that.
pub proof fn lemma_first_url(v: Seq<LineView>, url: Seq<char>)
    ensures
        first_url(v, url) is None ==> forall|j: int| 0 <= j < v.len() ==> !has_url(#[trigger] v[j], url),
        first_url(v, url) is Some ==> {
            let i = first_url(v, url)->Some_0;
            &&& 0 <= i < v.len()
            &&& has_url(v[i], url)
            &&& forall|j: int| 0 <= j < i ==> !has_url(#[trigger] v[j], url)
        },
    decreases v.len(),
{
    if v.len() > 0 {
        let w = v.drop_last();
        lemma_first_url(w, url);
        assert forall|j: int| 0 <= j < v.len() - 1 implies #[trigger] has_url(v[j], url) == has_url(
            w[j],
            url,
        ) by {}
    }
}

/// The first position whose line has the url `url`, scanning from the start.
proof fn lemma_first_url_take(v: Seq<LineView>, url: Seq<char>, k: int)
    requires
        0 <= k <= v.len(),
        forall|j: int| 0 <= j < k ==> !has_url(#[trigger] v[j], url),
    ensures
        first_url(v.take(k), url) is None,
    decreases k,
{
    if k > 0 {
        assert(v.take(k).drop_last() =~= v.take(k - 1));
        lemma_first_url_take(v, url, k - 1);
    }
}

/// A first match within a prefix is the first match of the whole.
proof fn lemma_first_url_extend(v: Seq<LineView>, url: Seq<char>, k: int)
    requires
        0 <= k <= v.len(),
        first_url(v.take(k), url) is Some,
    ensures
        first_url(v, url) == first_url(v.take(k), url),
    decreases v.len() - k,
{
    if k < v.len() {
        assert(v.take(k + 1).drop_last() =~= v.take(k));
        lemma_first_url_extend(v, url, k + 1);
    } else {
        assert(v.take(k) =~= v);
    }
}

/// The lines of `input`, or the first line that fails to parse.
pub fn parse_lines_of(input: &str) -> (r: Result<Vec<SourceLine>, SourcesListError>)
    ensures
        match parse_text(input@) {
            Ok(v) => r is Ok && line_views(r->Ok_0@) == v,
            Err((no, g)) => r is Err && bad_line_view(r->Err_0) == (no, Some(g)),
        },
{
    let raw = lines(input);
    let ghost ls = views(raw@);
    let n = raw.len();
    let mut out: Vec<SourceLine> = Vec::new();
    let mut i: usize = 0;
    assert(ls.take(0) =~= Seq::<Seq<char>>::empty());
    assert(line_views(out@) =~= Seq::<LineView>::empty());
    while i < n
        invariant
            n == raw@.len(),
            ls == views(raw@),
            ls == lines_of(input@),
            i <= n,
            parse_lines(ls.take(i as int)) == Ok::<Seq<LineView>, (nat, GrammarError)>(
                line_views(out@),
            ),
        decreases n - i,
    {
        assert(ls.take(i + 1).drop_last() =~= ls.take(i as int));
        assert(ls.take(i + 1).last() == raw@[i as int]@);
        match SourceLine::parse_line(raw[i].as_str()) {
            Ok(line) => {
                let ghost before = line_views(out@);
                out.push(line);
                assert(line_views(out@) =~= before.push(line@));
            },
            Err(why) => {
                proof {
                    lemma_parse_lines_err(ls, i as int);
                }
                return Err(SourcesListError::BadLine { line: i, why });
            },
        }
        i = i + 1;
    }
    assert(ls.take(n as int) =~= ls);
    Ok(out)
}

/// A failure at line `i` after a successful prefix is the failure of the whole.
proof fn lemma_parse_lines_err(ls: Seq<Seq<char>>, i: int)
    requires
        0 <= i < ls.len(),
        parse_lines(ls.take(i + 1)) is Err,
    ensures
        parse_lines(ls) == parse_lines(ls.take(i + 1)),
    decreases ls.len() - i,
{
    if i + 1 < ls.len() {
        assert(ls.take(i + 2).drop_last() =~= ls.take(i + 1));
        lemma_parse_lines_err(ls, i + 1);
    } else {
        assert(ls.take(i + 1) =~= ls);
    }
}

/// Moves the entry `line` to the suite `to` if its suite is `from`; `true`
/// is returned if it did.
fn replace_line_suite(line: &mut SourceLine, from: &str, to: &str) -> (changed: bool)
    ensures
        final(line)@ == replaced_suite(old(line)@, from@, to@),
        changed == (old(line)@ is Entry && old(line)@->Entry_0.suite == from@),
{
    match line {
        SourceLine::Entry(e) => {
            if same_text(e.suite.as_str(), from) {
                e.suite = String::from_str(to);
                true
            } else {
                false
            }
        },
        _ => false,
    }
}

/// Upgrades the entry `line` from the suite `from` to `to`.
fn upgrade_line(line: &mut SourceLine, from: &str, to: &str)
    ensures
        final(line)@ == upgraded_line(old(line)@, from@, to@),
{
    match line {
        SourceLine::Entry(e) => {
            if starts_with(e.url.as_str(), "http") && starts_with(e.suite.as_str(), from) {
                e.suite = replace(e.suite.as_str(), from, to);
            }
        },
        _ => {},
    }
}

/// Turns `line` into a comment holding its text, disabled, if it is an
/// entry with the url `url`; `true` is returned if it was.
fn comment_line(line: &mut SourceLine, url: &str) -> (hit: bool)
    ensures
        final(line)@ == commented_line(old(line)@, url@),
        hit == has_url(old(line)@, url@),
{
    let text = match &*line {
        SourceLine::Entry(e) => if same_text(e.url.as_str(), url) {
            Some(disabled_text(e))
        } else {
            None
        },
        _ => None,
    };
    match text {
        Some(t) => {
            *line = SourceLine::Comment(t);
            true
        },
        None => false,
    }
}

/// The entry that `line` holds, to be changed in place.
fn entry_of(line: &mut SourceLine) -> (r: Option<&mut SourceEntry>)
    ensures
        match *old(line) {
            SourceLine::Entry(e) => r is Some && *r.unwrap() == e && *final(line) == SourceLine::Entry(
                *final(r.unwrap()),
            ),
            _ => r is None && *final(line) == *old(line),
        },
{
    match line {
        SourceLine::Entry(e) => Some(e),
        _ => None,
    }
}

/// Enables or disables the entry `line`.
pub(crate) fn set_line_enabled(line: &mut SourceLine, enabled: bool)
    ensures
        final(line)@ == with_enabled(old(line)@, enabled),
{
    match line {
        SourceLine::Entry(e) => {
            e.enabled = enabled;
        },
        _ => {},
    }
}

impl SourcesList {
    /// The source list at `path` whose contents are `input`.
    pub fn from_text(path: String, input: &str) -> (r: SourceResult<Self>)
        ensures
            match parse_text(input@) {
                Ok(v) => r is Ok && r->Ok_0@ == (ListView { path: path@, lines: v }),
                Err((no, g)) => r is Err && reports_bad_line(r->Err_0, path@, no, g),
            },
    {
        match parse_lines_of(input) {
            Ok(lines) => Ok(SourcesList { path, lines }),
            Err(why) => Err(SourceError::SourcesList { path, why: Box::new(why) }),
        }
    }

    /// The position of the first entry with the url `entry`.
    pub fn contains_entry(&self, entry: &str) -> (r: Option<usize>)
        ensures
            match first_url(self@.lines, entry@) {
                Some(i) => r is Some && r->Some_0 as int == i,
                None => r is None,
            },
    {
        let n = self.lines.len();
        let ghost v = self@.lines;
        let mut i: usize = 0;
        while i < n
            invariant
                n == self.lines@.len(),
                v == self@.lines,
                i <= n,
                forall|j: int| 0 <= j < i ==> !has_url(#[trigger] v[j], entry@),
            decreases n - i,
        {
            if let SourceLine::Entry(e) = &self.lines[i] {
                if same_text(e.url.as_str(), entry) {
                    proof {
                        lemma_first_url_take(v, entry@, i as int);
                        assert(v.take(i + 1).drop_last() =~= v.take(i as int));
                        lemma_first_url_extend(v, entry@, i + 1);
                    }
                    return Some(i);
                }
            }
            i = i + 1;
        }
        proof {
            lemma_first_url_take(v, entry@, n as int);
            assert(v.take(n as int) =~= v);
        }
        None
    }

    /// The first entry with the url `entry`, to be changed in place.
    pub fn get_entry_mut(&mut self, entry: &str) -> (r: Option<&mut SourceEntry>)
        ensures
            match first_url(old(self)@.lines, entry@) {
                None => r is None && final(self)@ == old(self)@,
                Some(i) => {
                    &&& r is Some
                    &&& (*r.unwrap())@ == old(self)@.lines[i]->Entry_0
                    &&& final(self).path == old(self).path
                    &&& final(self).lines@ == old(self).lines@.update(
                        i,
                        SourceLine::Entry(*final(r.unwrap())),
                    )
                },
            },
    {
        proof {
            lemma_first_url(self@.lines, entry@);
        }
        match self.contains_entry(entry) {
            Some(pos) => entry_of(&mut self.lines[pos]),
            None => None,
        }
    }

    /// Whether the file holds any entry, enabled or not.
    pub fn is_active(&self) -> (r: bool)
        ensures
            r == exists|i: int| 0 <= i < self@.lines.len() && self@.lines[i] is Entry,
    {
        let n = self.lines.len();
        let mut i: usize = 0;
        while i < n
            invariant
                n == self.lines@.len(),
                i <= n,
                forall|j: int| 0 <= j < i ==> !(#[trigger] self@.lines[j] is Entry),
            decreases n - i,
        {
            if let SourceLine::Entry(_) = &self.lines[i] {
                assert(self@.lines[i as int] is Entry);
                return true;
            }
            i = i + 1;
        }
        false
    }

    /// Replaces the lines with those of `input`, the new contents of the file;
    /// on failure the file is left as it was.
    pub fn reload(&mut self, input: &str) -> (r: SourceResult<()>)
        ensures
            match parse_text(input@) {
                Ok(v) => r is Ok && final(self)@ == (ListView { path: old(self)@.path, lines: v }),
                Err((no, g)) => r is Err && reports_bad_line(r->Err_0, old(self)@.path, no, g)
                    && final(self)@ == old(self)@,
            },
    {
        match parse_lines_of(input) {
            Ok(lines) => {
                self.lines = lines;
                Ok(())
            },
            Err(why) => Err(SourceError::SourcesList { path: self.path.clone(), why: Box::new(why) }),
        }
    }

    /// Moves each entry of the suite `from` to the suite `to`; `true` is
    /// returned if there was one.
    pub fn replace_suite(&mut self, from: &str, to: &str) -> (changed: bool)
        ensures
            final(self)@ == replaced_file(old(self)@, from@, to@),
            changed == has_suite(old(self)@, from@),
    {
        let ghost v = old(self)@.lines;
        let n = self.lines.len();
        let mut changed = false;
        let mut i: usize = 0;
        while i < n
            invariant
                n == self.lines@.len(),
                v == old(self)@.lines,
                v.len() == n,
                i <= n,
                self.path == old(self).path,
                forall|j: int| 0 <= j < i ==> (#[trigger] self.lines@[j])@ == replaced_suite(v[j], from@, to@),
                forall|j: int| i <= j < n ==> #[trigger] self.lines@[j] == old(self).lines@[j],
                changed == exists|j: int| 0 <= j < i && (#[trigger] v[j] is Entry) && v[j]->Entry_0.suite == from@,
            decreases n - i,
        {
            assert(v[i as int] == old(self).lines@[i as int]@);
            let hit = replace_line_suite(&mut self.lines[i], from, to);
            if hit {
                changed = true;
            }
            i = i + 1;
        }
        assert(self@.lines =~= v.map_values(|l: LineView| replaced_suite(l, from@, to@)));
        changed
    }

    /// Upgrades each entry whose url starts with `http` and whose suite starts
    /// with `from`: every occurrence of `from` in its suite becomes `to`.
    pub fn upgrade_suites(&mut self, from: &str, to: &str)
        ensures
            final(self)@ == upgraded_file(old(self)@, from@, to@),
    {
        let ghost v = old(self)@.lines;
        let n = self.lines.len();
        let mut i: usize = 0;
        while i < n
            invariant
                n == self.lines@.len(),
                v == old(self)@.lines,
                v.len() == n,
                i <= n,
                self.path == old(self).path,
                forall|j: int| 0 <= j < i ==> (#[trigger] self.lines@[j])@ == upgraded_line(v[j], from@, to@),
                forall|j: int| i <= j < n ==> #[trigger] self.lines@[j] == old(self).lines@[j],
            decreases n - i,
        {
            assert(v[i as int] == old(self).lines@[i as int]@);
            upgrade_line(&mut self.lines[i], from, to);
            i = i + 1;
        }
        assert(self@.lines =~= v.map_values(|l: LineView| upgraded_line(l, from@, to@)));
    }

    /// Removes every entry with the url `url`; `true` is returned if there
    /// was one.
    pub fn remove_url(&mut self, url: &str) -> (found: bool)
        ensures
            final(self)@ == without_url(old(self)@, url@),
            found == file_has_url(old(self)@, url@),
    {
        let ghost v = old(self)@.lines;
        let mut i: usize = 0;
        let ghost mut j: int = 0;
        let mut found = false;
        assert(v.take(0) =~= Seq::<LineView>::empty());
        assert(line_views(self.lines@).take(0) =~= Seq::<LineView>::empty());
        assert(line_views(self.lines@).skip(0) =~= v.skip(0));
        while i < self.lines.len()
            invariant
                v == old(self)@.lines,
                self.path == old(self).path,
                0 <= i <= j <= v.len(),
                i <= self.lines@.len(),
                line_views(self.lines@).take(i as int) == drop_url(v.take(j), url@),
                line_views(self.lines@).skip(i as int) == v.skip(j),
                found == exists|k: int| 0 <= k < j && has_url(#[trigger] v[k], url@),
            decreases self.lines.len() - i,
        {
            let ghost w = line_views(self.lines@);
            assert(w.len() == self.lines@.len());
            assert(w.skip(i as int).len() == w.len() - i);
            assert(v.skip(j).len() == v.len() - j);
            assert(j < v.len());
            assert(w.skip(i as int)[0] == w[i as int]);
            assert(v.skip(j)[0] == v[j]);
            assert(v.take(j + 1).drop_last() =~= v.take(j));
            let hit = match &self.lines[i] {
                SourceLine::Entry(e) => same_text(e.url.as_str(), url),
                _ => false,
            };
            assert(hit == has_url(v[j], url@));
            if hit {
                self.lines.remove(i);
                found = true;
                assert(line_views(self.lines@).take(i as int) =~= w.take(i as int));
                let ghost w2 = line_views(self.lines@);
                assert(w2.len() == w.len() - 1);
                assert forall|x: int| 0 <= x < w2.len() - i implies #[trigger] w2.skip(i as int)[x] == v.skip(j + 1)[x] by {
                    assert(w2[i + x] == w[i + 1 + x]);
                    assert(w.skip(i as int)[1 + x] == v.skip(j)[1 + x]);
                }
                assert(w2.skip(i as int) =~= v.skip(j + 1));
            } else {
                assert(line_views(self.lines@).take(i + 1) =~= w.take(i as int).push(v[j]));
                assert forall|x: int| 0 <= x < w.len() - i - 1 implies #[trigger] w.skip(i + 1)[x] == v.skip(j + 1)[x] by {
                    assert(w.skip(i as int)[1 + x] == v.skip(j)[1 + x]);
                }
                assert(w.skip(i + 1) =~= v.skip(j + 1));
                i = i + 1;
            }
            proof {
                j = j + 1;
            }
        }
        assert(line_views(self.lines@).len() == self.lines@.len());
        assert(line_views(self.lines@).skip(i as int).len() == 0);
        assert(v.skip(j).len() == v.len() - j);
        assert(v.take(j) =~= v);
        assert(line_views(self.lines@) =~= line_views(self.lines@).take(i as int));
        proof {
            lemma_first_url(v, url@);
        }
        found
    }

    /// Turns every entry with the url `url` into a comment holding its text,
    /// disabled; `true` is returned if there was one.
    pub fn comment_url(&mut self, url: &str) -> (found: bool)
        ensures
            final(self)@ == commented_url(old(self)@, url@),
            found == file_has_url(old(self)@, url@),
    {
        let ghost v = old(self)@.lines;
        let n = self.lines.len();
        let mut found = false;
        let mut i: usize = 0;
        while i < n
            invariant
                n == self.lines@.len(),
                v == old(self)@.lines,
                v.len() == n,
                i <= n,
                self.path == old(self).path,
                forall|j: int| 0 <= j < i ==> (#[trigger] self.lines@[j])@ == commented_line(v[j], url@),
                forall|j: int| i <= j < n ==> #[trigger] self.lines@[j] == old(self).lines@[j],
                found == exists|j: int| 0 <= j < i && has_url(#[trigger] v[j], url@),
            decreases n - i,
        {
            assert(v[i as int] == old(self).lines@[i as int]@);
            let hit = comment_line(&mut self.lines[i], url);
            if hit {
                found = true;
            }
            i = i + 1;
        }
        assert(self@.lines =~= v.map_values(|l: LineView| commented_line(l, url@)));
        proof {
            lemma_first_url(v, url@);
        }
        found
    }

    /// The text of the file: each line followed by a newline.
    pub fn to_string(&self) -> (r: String)
        ensures
            r@ == list_text(self@.lines),
    {
        let mut out = String::new();
        let n = self.lines.len();
        let ghost v = self@.lines;
        let mut i: usize = 0;
        assert(v.take(0) =~= Seq::<LineView>::empty());
        while i < n
            invariant
                n == v.len(),
                v == self@.lines,
                i <= n,
                out@ == list_text(v.take(i as int)),
            decreases n - i,
        {
            out.append(self.lines[i].to_string().as_str());
            out.append("\n");
            assert(v.take(i + 1).drop_last() =~= v.take(i as int));
            i = i + 1;
        }
        assert(v.take(n as int) =~= v);
        out
    }
}

/// The line `l`, enabled or disabled as `enabled` says if it is an entry.
pub open spec fn with_enabled(l: LineView, enabled: bool) -> LineView {
    match l {
        LineView::Entry(e) => LineView::Entry(EntryView { enabled, ..e }),
        _ => l,
    }
}

/// Whether the file `f` holds an entry with the url `url`.
pub open spec fn file_has_url(f: ListView, url: Seq<char>) -> bool {
    first_url(f.lines, url) is Some
}

/// The file `f` without its entries with the url `url`.
pub open spec fn without_url(f: ListView, url: Seq<char>) -> ListView {
    ListView { path: f.path, lines: drop_url(f.lines, url) }
}

/// The lines `v` without their entries with the url `url`, the others in
/// order.
pub open spec fn drop_url(v: Seq<LineView>, url: Seq<char>) -> Seq<LineView>
    decreases v.len(),
{
    if v.len() == 0 {
        seq![]
    } else if has_url(v.last(), url) {
        drop_url(v.drop_last(), url)
    } else {
        drop_url(v.drop_last(), url).push(v.last())
    }
}

/// No line that `drop_url` keeps has the url.
pub proof fn lemma_drop_url(v: Seq<LineView>, url: Seq<char>)
    ensures
        forall|i: int| 0 <= i < drop_url(v, url).len() ==> !has_url(#[trigger] drop_url(v, url)[i], url),
    decreases v.len(),
{
    if v.len() > 0 {
        let d = drop_url(v.drop_last(), url);
        lemma_drop_url(v.drop_last(), url);
        if !has_url(v.last(), url) {
            assert forall|i: int| 0 <= i < d.len() + 1 implies !has_url(#[trigger] d.push(v.last())[i], url) by {
                if i < d.len() {
                    assert(d.push(v.last())[i] == d[i]);
                }
            }
        }
    }
}

/// The line `l`, turned into a comment if it is an entry with the url `url`.
pub open spec fn commented_line(l: LineView, url: Seq<char>) -> LineView {
    if has_url(l, url) {
        comment_of(l->Entry_0)
    } else {
        l
    }
}

/// The comment that takes the place of the entry `e`: its text, disabled.
pub open spec fn comment_of(e: EntryView) -> LineView {
    LineView::Comment(entry_text(EntryView { enabled: false, ..e }))
}

/// The file `f` with each of its entries with the url `url` turned into a
/// comment.
pub open spec fn commented_url(f: ListView, url: Seq<char>) -> ListView {
    ListView { path: f.path, lines: f.lines.map_values(|l: LineView| commented_line(l, url)) }
}

/// The line `l` with the suite `from` changed to `to` if it is such an entry.
pub open spec fn replaced_suite(l: LineView, from: Seq<char>, to: Seq<char>) -> LineView {
    match l {
        LineView::Entry(e) => if e.suite == from {
            LineView::Entry(EntryView { suite: to, ..e })
        } else {
            l
        },
        _ => l,
    }
}

/// Whether `f` holds an entry with the suite `suite`.
pub open spec fn has_suite(f: ListView, suite: Seq<char>) -> bool {
    exists|i: int| 0 <= i < f.lines.len() && (#[trigger] f.lines[i] is Entry) && f.lines[i]->Entry_0.suite == suite
}

/// The file `f` with each entry of suite `from` moved to the suite `to`.
pub open spec fn replaced_file(f: ListView, from: Seq<char>, to: Seq<char>) -> ListView {
    ListView { path: f.path, lines: f.lines.map_values(|l: LineView| replaced_suite(l, from, to)) }
}

/// Whether the entry `e` is moved by an upgrade from the suite `from`: its
/// url starts with `http` and its suite with `from`.
pub open spec fn upgrades(e: EntryView, from: Seq<char>) -> bool {
    "http"@.is_prefix_of(e.url) && from.is_prefix_of(e.suite)
}

/// The entry `e` after an upgrade from `from` to `to`: in its suite every
/// occurrence of `from` is replaced by `to`.
pub open spec fn upgraded(e: EntryView, from: Seq<char>, to: Seq<char>) -> EntryView {
    if upgrades(e, from) {
        EntryView { suite: replace_all(e.suite, from, to), ..e }
    } else {
        e
    }
}

/// The line `l` after an upgrade from `from` to `to`.
pub open spec fn upgraded_line(l: LineView, from: Seq<char>, to: Seq<char>) -> LineView {
    match l {
        LineView::Entry(e) => LineView::Entry(upgraded(e, from, to)),
        _ => l,
    }
}

/// The file `f` after an upgrade from `from` to `to`.
pub open spec fn upgraded_file(f: ListView, from: Seq<char>, to: Seq<char>) -> ListView {
    ListView { path: f.path, lines: f.lines.map_values(|l: LineView| upgraded_line(l, from, to)) }
}

/// The text of the entry `e`, disabled.
fn disabled_text(e: &SourceEntry) -> (r: String)
    ensures
        r@ == entry_text(EntryView { enabled: false, ..e@ }),
{
    let text = e.to_string();
    if e.enabled {
        let mut out = String::from_str("# ");
        out.append(text.as_str());
        assert(out@ =~= entry_text(EntryView { enabled: false, ..e@ }));
        out
    } else {
        assert(e@ == EntryView { enabled: false, ..e@ });
        text
    }
}

impl std::str::FromStr for SourcesList {
    type Err = SourcesListError;

    fn from_str(input: &str) -> (r: Result<Self, Self::Err>)
        ensures
            match parse_text(input@) {
                Ok(v) => r is Ok && r->Ok_0@ == (ListView { path: seq![], lines: v }),
                Err((no, g)) => r is Err && bad_line_view(r->Err_0) == (no, Some(g)),
            },
    {
        match parse_lines_of(input) {
            Ok(lines) => Ok(SourcesList { path: String::new(), lines }),
            Err(why) => Err(why),
        }
    }
}

} // verus!
