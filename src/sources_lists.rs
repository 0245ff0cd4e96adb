//! The collection of all source lists, and the changes made to it.
use vstd::prelude::*;

use crate::errors::{GrammarError, SourceResult};
use crate::source_entry::{dist_path_of, EntryView, SourceEntry};
use crate::source_line::{LineView, SourceLine};
use crate::sources_list::{
    commented_url, file_has_url, first_url, has_suite, has_url, lemma_drop_url, lemma_first_url,
    line_views, reports_bad_line, parse_text, replaced_file, replaced_suite, set_line_enabled, upgraded,
    upgraded_file, upgraded_line, upgrades, with_enabled, without_url, ListView, SourcesList,
};
use crate::text::{lemma_replace_same, replace, same_text, starts_with, views};

verus! {

/// The first of the positions `0..n` at which `p` holds.
pub open spec fn first_where(n: int, p: spec_fn(int) -> bool) -> Option<int>
    decreases n,
{
    if n <= 0 {
        None
    } else {
        match first_where(n - 1, p) {
            Some(i) => Some(i),
            None => if p(n - 1) {
                Some(n - 1)
            } else {
                None
            },
        }
    }
}

/// `first_where` finds the first position at which `p` holds, and only that.
pub proof fn lemma_first_where(n: int, p: spec_fn(int) -> bool)
    ensures
        first_where(n, p) is None ==> forall|j: int| 0 <= j < n ==> !#[trigger] p(j),
        first_where(n, p) is Some ==> {
            let i = first_where(n, p)->Some_0;
            &&& 0 <= i < n
            &&& p(i)
            &&& forall|j: int| 0 <= j < i ==> !#[trigger] p(j)
        },
    decreases n,
{
    if n > 0 {
        lemma_first_where(n - 1, p);
    }
}

/// `m` with `k` added at its end, unless it already holds it.
pub open spec fn mark(m: Seq<usize>, k: int) -> Seq<usize> {
    if m.contains(k as usize) {
        m
    } else {
        m.push(k as usize)
    }
}

/// `m` with each of the positions `0..n` at which `p` holds marked, in order.
pub open spec fn mark_where(m: Seq<usize>, n: int, p: spec_fn(int) -> bool) -> Seq<usize>
    decreases n,
{
    if n <= 0 {
        m
    } else {
        let prev = mark_where(m, n - 1, p);
        if p(n - 1) {
            mark(prev, n - 1)
        } else {
            prev
        }
    }
}

/// Adds `list` to the positions in `modified`, unless it is there already.
fn add_modified(modified: &mut Vec<usize>, list: usize)
    ensures
        final(modified)@ == mark(old(modified)@, list as int),
{
    let n = modified.len();
    let mut i: usize = 0;
    while i < n
        invariant
            n == modified@.len(),
            i <= n,
            forall|j: int| 0 <= j < i ==> modified@[j] != list,
        decreases n - i,
    {
        if modified[i] == list {
            assert(modified@.contains(list));
            return;
        }
        i = i + 1;
    }
    assert(!modified@.contains(list));
    modified.push(list);
}

/// All source lists of the system, with the positions of those that were
/// changed in memory and not yet written.
#[derive(Clone, Debug)]
pub struct SourcesLists {
    /// The files, in the order in which they were found.
    pub files: Vec<SourcesList>,
    /// The positions in `files` of the files with unwritten changes.
    pub modified: Vec<usize>,
}

/// What a `SourcesLists` holds, as plain values.
pub ghost struct ListsView {
    pub files: Seq<ListView>,
    pub modified: Seq<usize>,
}

/// The plain values of a sequence of files.
pub open spec fn list_views(v: Seq<SourcesList>) -> Seq<ListView> {
    v.map_values(|f: SourcesList| f@)
}

impl View for SourcesLists {
    type V = ListsView;

    open spec fn view(&self) -> ListsView {
        ListsView { files: list_views(self.files@), modified: self.modified@ }
    }
}

/// Every position of the dirty set names a file, and none occurs twice.
pub open spec fn dirty_ok(v: ListsView) -> bool {
    &&& forall|i: int| 0 <= i < v.modified.len() ==> #[trigger] v.modified[i] < v.files.len()
    &&& v.modified.no_duplicates()
}

/// Marking a position of a file keeps the dirty set well formed.
proof fn lemma_mark_ok(m: Seq<usize>, n: int, k: int)
    requires
        0 <= k < n,
        forall|i: int| 0 <= i < m.len() ==> #[trigger] m[i] < n,
        m.no_duplicates(),
    ensures
        forall|i: int| 0 <= i < mark(m, k).len() ==> #[trigger] mark(m, k)[i] < n,
        mark(m, k).no_duplicates(),
{
}

/// The files that the pairs of path and contents `s` are, or the path, line
/// number and failure of the first line that does not parse.
pub open spec fn parse_sources(s: Seq<(Seq<char>, Seq<char>)>) -> Result<
    Seq<ListView>,
    (Seq<char>, nat, GrammarError),
>
    decreases s.len(),
{
    if s.len() == 0 {
        Ok(seq![])
    } else {
        match parse_sources(s.drop_last()) {
            Err(e) => Err(e),
            Ok(v) => match parse_text(s.last().1) {
                Ok(lines) => Ok(v.push(ListView { path: s.last().0, lines })),
                Err((no, g)) => Err((s.last().0, no, g)),
            },
        }
    }
}

/// The plain values of pairs of path and contents.
pub open spec fn source_views(s: Seq<(String, String)>) -> Seq<(Seq<char>, Seq<char>)> {
    s.map_values(|p: (String, String)| (p.0@, p.1@))
}

/// The entries of the lines `v`, in order.
pub open spec fn line_entries(v: Seq<LineView>) -> Seq<EntryView>
    decreases v.len(),
{
    if v.len() == 0 {
        seq![]
    } else {
        match v.last() {
            LineView::Entry(e) => line_entries(v.drop_last()).push(e),
            _ => line_entries(v.drop_last()),
        }
    }
}

/// The entries of the files `f`, file after file.
pub open spec fn all_entries(f: Seq<ListView>) -> Seq<EntryView>
    decreases f.len(),
{
    if f.len() == 0 {
        seq![]
    } else {
        all_entries(f.drop_last()) + line_entries(f.last().lines)
    }
}

/// The plain values of a sequence of borrowed entries.
pub open spec fn entry_refs(v: Seq<&SourceEntry>) -> Seq<EntryView> {
    v.map_values(|e: &SourceEntry| e@)
}

/// The position of the first file of `files` that holds an entry with the
/// url `url`.
pub open spec fn first_file(files: Seq<ListView>, url: Seq<char>) -> Option<int> {
    first_where(files.len() as int, |k: int| file_has_url(files[k], url))
}

/// The position of the first file of `files` with the path `path`.
pub open spec fn first_path(files: Seq<ListView>, path: Seq<char>) -> Option<int> {
    first_where(files.len() as int, |k: int| files[k].path == path)
}

/// The file `f` with the entry `e` put in place of its first entry with the
/// same url, or appended when it has none.
pub open spec fn with_entry(f: ListView, e: EntryView) -> ListView {
    ListView {
        path: f.path,
        lines: match first_url(f.lines, e.url) {
            Some(i) => f.lines.update(i, LineView::Entry(e)),
            None => f.lines.push(LineView::Entry(e)),
        },
    }
}

/// The dist paths, after an upgrade from `from` to `to`, of the entries of
/// `es` that the upgrade moves, in order.
pub open spec fn upgrade_paths(es: Seq<EntryView>, from: Seq<char>, to: Seq<char>) -> Seq<Seq<char>>
    decreases es.len(),
{
    if es.len() == 0 {
        seq![]
    } else {
        let prev = upgrade_paths(es.drop_last(), from, to);
        if upgrades(es.last(), from) {
            prev.push(dist_path_of(upgraded(es.last(), from, to)))
        } else {
            prev
        }
    }
}

/// Renaming a suite to itself leaves every line as it was, both in the exact
/// rename of `dist_replace` and in the rename of an upgrade.
pub proof fn lemma_rename_to_same_suite(files: Seq<ListView>, suite: Seq<char>)
    ensures
        files.map_values(|f: ListView| replaced_file(f, suite, suite)) == files,
        files.map_values(|f: ListView| upgraded_file(f, suite, suite)) == files,
{
    assert forall|k: int| 0 <= k < files.len() implies #[trigger] replaced_file(files[k], suite, suite)
        == files[k] && upgraded_file(files[k], suite, suite) == files[k] by {
        let f = files[k];
        assert forall|i: int| 0 <= i < f.lines.len() implies #[trigger] upgraded_line(f.lines[i], suite, suite)
            == f.lines[i] by {
            if let LineView::Entry(e) = f.lines[i] {
                lemma_replace_same(e.suite, suite);
            }
        }
        assert(f.lines.map_values(|l: LineView| replaced_suite(l, suite, suite)) =~= f.lines);
        assert(f.lines.map_values(|l: LineView| upgraded_line(l, suite, suite)) =~= f.lines);
    }
    assert(files.map_values(|f: ListView| replaced_file(f, suite, suite)) =~= files);
    assert(files.map_values(|f: ListView| upgraded_file(f, suite, suite)) =~= files);
}

/// After `insert_entry` puts `e` into the file at `path`, the first entry
/// with `e`'s url in that file is `e`, where it was put: in place of the
/// former first such entry, at the end, or alone in a new file.
pub proof fn lemma_insert_then_find(files: Seq<ListView>, path: Seq<char>, e: EntryView)
    ensures
        match first_path(files, path) {
            Some(k) => {
                let pos = match first_url(files[k].lines, e.url) {
                    Some(i) => i,
                    None => files[k].lines.len() as int,
                };
                &&& first_url(with_entry(files[k], e).lines, e.url) == Some(pos)
                &&& with_entry(files[k], e).lines[pos] == LineView::Entry(e)
            },
            None => first_url(seq![LineView::Entry(e)], e.url) == Some(0int),
        },
{
    lemma_first_where(files.len() as int, |k: int| files[k].path == path);
    match first_path(files, path) {
        Some(k) => {
            let f = files[k];
            let g = with_entry(f, e);
            lemma_first_url(f.lines, e.url);
            lemma_first_url(g.lines, e.url);
            let pos = match first_url(f.lines, e.url) {
                Some(i) => i,
                None => f.lines.len() as int,
            };
            assert(g.lines[pos] == LineView::Entry(e));
            assert(has_url(g.lines[pos], e.url));
            assert forall|j: int| 0 <= j < pos implies !has_url(#[trigger] g.lines[j], e.url) by {
                assert(g.lines[j] == f.lines[j]);
            }
            if let Some(j) = first_url(g.lines, e.url) {
                if j < pos {
                    assert(!has_url(g.lines[j], e.url));
                }
            }
            assert(first_url(g.lines, e.url) == Some(pos));
        },
        None => {
            let v = seq![LineView::Entry(e)];
            assert(v.drop_last() =~= Seq::<LineView>::empty());
            assert(first_url(v.drop_last(), e.url) is None);
            assert(has_url(v.last(), e.url));
        },
    }
}

/// After `remove_entry` of `url`, no file holds an entry with that url.
pub proof fn lemma_remove_then_find(files: Seq<ListView>, url: Seq<char>)
    ensures
        forall|k: int|
            0 <= k < files.len() ==> first_url((#[trigger] without_url(files[k], url)).lines, url) is None,
{
    assert forall|k: int| 0 <= k < files.len() implies first_url(
        (#[trigger] without_url(files[k], url)).lines,
        url,
    ) is None by {
        let g = without_url(files[k], url);
        lemma_drop_url(files[k].lines, url);
        lemma_first_url(g.lines, url);
    }
}

impl SourcesLists {
    /// The collection of the files `files`, none of them changed.
    pub fn new(files: Vec<SourcesList>) -> (r: Self)
        ensures
            r@ == (ListsView { files: list_views(files@), modified: seq![] }),
            dirty_ok(r@),
    {
        SourcesLists { files, modified: Vec::new() }
    }

    /// Parses the files given as pairs of path and contents, in order.
    pub fn new_from_paths(sources: &Vec<(String, String)>) -> (r: SourceResult<Self>)
        ensures
            match parse_sources(source_views(sources@)) {
                Ok(fs) => r is Ok && r->Ok_0@ == (ListsView { files: fs, modified: seq![] }),
                Err((path, no, g)) => r is Err && reports_bad_line(r->Err_0, path, no, g),
            },
            r is Ok ==> dirty_ok(r->Ok_0@),
    {
        let ghost s = source_views(sources@);
        let n = sources.len();
        let mut files: Vec<SourcesList> = Vec::new();
        let mut i: usize = 0;
        assert(s.take(0) =~= Seq::<(Seq<char>, Seq<char>)>::empty());
        assert(list_views(files@) =~= Seq::<ListView>::empty());
        while i < n
            invariant
                n == sources@.len(),
                s == source_views(sources@),
                i <= n,
                parse_sources(s.take(i as int)) == Ok::<
                    Seq<ListView>,
                    (Seq<char>, nat, GrammarError),
                >(list_views(files@)),
            decreases n - i,
        {
            assert(s.take(i + 1).drop_last() =~= s.take(i as int));
            let path = sources[i].0.clone();
            match SourcesList::from_text(path, sources[i].1.as_str()) {
                Ok(list) => {
                    let ghost before = list_views(files@);
                    files.push(list);
                    assert(list_views(files@) =~= before.push(list@));
                },
                Err(e) => {
                    proof {
                        lemma_parse_sources_err(s, i as int);
                    }
                    return Err(e);
                },
            }
            i = i + 1;
        }
        assert(s.take(n as int) =~= s);
        Ok(SourcesLists { files, modified: Vec::new() })
    }

    /// Every entry of every file, file after file, in line order.
    pub fn entries(&self) -> (r: Vec<&SourceEntry>)
        ensures
            entry_refs(r@) == all_entries(self@.files),
    {
        let ghost fs = self@.files;
        let mut out: Vec<&SourceEntry> = Vec::new();
        let n = self.files.len();
        let mut k: usize = 0;
        assert(fs.take(0) =~= Seq::<ListView>::empty());
        assert(entry_refs(out@) =~= Seq::<EntryView>::empty());
        while k < n
            invariant
                n == fs.len(),
                fs == self@.files,
                k <= n,
                entry_refs(out@) == all_entries(fs.take(k as int)),
            decreases n - k,
        {
            let lines = &self.files[k].lines;
            let ghost v = fs[k as int].lines;
            let ghost base = all_entries(fs.take(k as int));
            let m = lines.len();
            let mut i: usize = 0;
            assert(v.take(0) =~= Seq::<LineView>::empty());
            assert(base =~= base + line_entries(v.take(0)));
            while i < m
                invariant
                    m == v.len(),
                    v == line_views(lines@),
                    i <= m,
                    entry_refs(out@) == base + line_entries(v.take(i as int)),
                decreases m - i,
            {
                assert(v.take(i + 1).drop_last() =~= v.take(i as int));
                if let SourceLine::Entry(e) = &lines[i] {
                    let ghost before = entry_refs(out@);
                    out.push(e);
                    assert(entry_refs(out@) =~= before.push(e@));
                }
                i = i + 1;
            }
            assert(v.take(m as int) =~= v);
            assert(fs.take(k + 1).drop_last() =~= fs.take(k as int));
            k = k + 1;
        }
        assert(fs.take(n as int) =~= fs);
        out
    }

    /// Puts `entry` into the file at `path`: in place of the first entry with
    /// the same url, or at the end. A file that is not there is added,
    /// holding `entry` alone. The file is marked as changed.
    pub fn insert_entry(&mut self, path: &str, entry: SourceEntry) -> (r: SourceResult<()>)
        ensures
            r is Ok,
            match first_path(old(self)@.files, path@) {
                Some(k) => {
                    &&& final(self)@.files == old(self)@.files.update(k, with_entry(old(self)@.files[k], entry@))
                    &&& final(self)@.modified == mark(old(self)@.modified, k)
                },
                None => {
                    &&& final(self)@.files == old(self)@.files.push(
                        ListView { path: path@, lines: seq![LineView::Entry(entry@)] },
                    )
                    &&& final(self)@.modified == mark(old(self)@.modified, old(self)@.files.len() as int)
                },
            },
            dirty_ok(old(self)@) ==> dirty_ok(final(self)@),
    {
        let ghost files = old(self)@.files;
        let ghost pred = |k: int| files[k].path == path@;
        let n = self.files.len();
        let mut k: usize = 0;
        while k < n
            invariant
                n == self.files@.len(),
                *self == *old(self),
                files == self@.files,
                pred == (|k: int| files[k].path == path@),
                k <= n,
                forall|j: int| 0 <= j < k ==> !#[trigger] pred(j),
            decreases n - k,
        {
            assert(files[k as int] == self.files@[k as int]@);
            if same_text(self.files[k].path.as_str(), path) {
                proof {
                    lemma_first_where(n as int, pred);
                    assert(pred(k as int));
                    assert(first_where(n as int, pred) == Some(k as int));
                    assert(first_path(files, path@) == first_where(n as int, pred));
                    lemma_first_url(files[k as int].lines, entry@.url);
                }
                let ghost f = files[k as int];
                match self.files[k].contains_entry(entry.url.as_str()) {
                    Some(pos) => {
                        self.files[k].lines.set(pos, SourceLine::Entry(entry));
                    },
                    None => {
                        self.files[k].lines.push(SourceLine::Entry(entry));
                    },
                }
                assert(self@.files[k as int].lines =~= with_entry(f, entry@).lines);
                assert(self@.files =~= files.update(k as int, with_entry(f, entry@)));
                proof {
                    if dirty_ok(old(self)@) {
                        lemma_mark_ok(self.modified@, n as int, k as int);
                    }
                }
                add_modified(&mut self.modified, k);
                return Ok(());
            }
            k = k + 1;
        }
        proof {
            lemma_first_where(n as int, pred);
            assert(first_path(files, path@) == first_where(n as int, pred));
        }
        let mut lines: Vec<SourceLine> = Vec::new();
        lines.push(SourceLine::Entry(entry));
        self.files.push(SourcesList { path: String::from_str(path), lines });
        assert(line_views(lines@) =~= seq![LineView::Entry(entry@)]);
        assert(self@.files =~= files.push(ListView { path: path@, lines: seq![LineView::Entry(entry@)] }));
        proof {
            if dirty_ok(old(self)@) {
                lemma_mark_ok(self.modified@, n + 1, n as int);
            }
        }
        add_modified(&mut self.modified, n);
        Ok(())
    }

    /// Removes from each file every entry with the url `repo`, and marks
    /// each file that held one as changed.
    pub fn remove_entry(&mut self, repo: &str)
        ensures
            final(self)@.files == old(self)@.files.map_values(|f: ListView| without_url(f, repo@)),
            final(self)@.modified == mark_where(
                old(self)@.modified,
                old(self)@.files.len() as int,
                |k: int| file_has_url(old(self)@.files[k], repo@),
            ),
            dirty_ok(old(self)@) ==> dirty_ok(final(self)@),
    {
        let ghost files = old(self)@.files;
        let ghost pred = |k: int| file_has_url(files[k], repo@);
        let n = self.files.len();
        let mut k: usize = 0;
        while k < n
            invariant
                n == self.files@.len(),
                files == old(self)@.files,
                files.len() == n,
                pred == (|k: int| file_has_url(files[k], repo@)),
                k <= n,
                forall|j: int| 0 <= j < k ==> (#[trigger] self.files@[j])@ == without_url(files[j], repo@),
                forall|j: int| k <= j < n ==> #[trigger] self.files@[j] == old(self).files@[j],
                self@.modified == mark_where(old(self)@.modified, k as int, pred),
                dirty_ok(old(self)@) ==> dirty_ok(self@),
            decreases n - k,
        {
            assert(files[k as int] == old(self).files@[k as int]@);
            let found = self.files[k].remove_url(repo);
            if found {
                proof {
                    if dirty_ok(old(self)@) {
                        lemma_mark_ok(self.modified@, n as int, k as int);
                    }
                }
                add_modified(&mut self.modified, k);
            }
            k = k + 1;
        }
        assert(self@.files =~= files.map_values(|f: ListView| without_url(f, repo@)));
    }

    /// Turns every entry with the url `url` into a comment holding its text,
    /// disabled; each file that held one is marked as changed. Unlike disabling, this drops the entry's structure.
    pub fn comment_entry(&mut self, url: &str)
        ensures
            final(self)@.files == old(self)@.files.map_values(|f: ListView| commented_url(f, url@)),
            final(self)@.modified == mark_where(
                old(self)@.modified,
                old(self)@.files.len() as int,
                |k: int| file_has_url(old(self)@.files[k], url@),
            ),
            dirty_ok(old(self)@) ==> dirty_ok(final(self)@),
    {
        let ghost files = old(self)@.files;
        let ghost pred = |k: int| file_has_url(files[k], url@);
        let n = self.files.len();
        let mut k: usize = 0;
        while k < n
            invariant
                n == self.files@.len(),
                files == old(self)@.files,
                files.len() == n,
                pred == (|k: int| file_has_url(files[k], url@)),
                k <= n,
                forall|j: int| 0 <= j < k ==> (#[trigger] self.files@[j])@ == commented_url(files[j], url@),
                forall|j: int| k <= j < n ==> #[trigger] self.files@[j] == old(self).files@[j],
                self@.modified == mark_where(old(self)@.modified, k as int, pred),
                dirty_ok(old(self)@) ==> dirty_ok(self@),
            decreases n - k,
        {
            assert(files[k as int] == old(self).files@[k as int]@);
            let found = self.files[k].comment_url(url);
            if found {
                proof {
                    if dirty_ok(old(self)@) {
                        lemma_mark_ok(self.modified@, n as int, k as int);
                    }
                }
                add_modified(&mut self.modified, k);
            }
            k = k + 1;
        }
        assert(self@.files =~= files.map_values(|f: ListView| commented_url(f, url@)));
    }

    /// Moves every entry of the suite `from` to the suite `to`, in memory;
    /// each file that held one is marked as changed.
    pub fn dist_replace(&mut self, from_suite: &str, to_suite: &str)
        ensures
            final(self)@.files == old(self)@.files.map_values(
                |f: ListView| replaced_file(f, from_suite@, to_suite@),
            ),
            final(self)@.modified == mark_where(
                old(self)@.modified,
                old(self)@.files.len() as int,
                |k: int| has_suite(old(self)@.files[k], from_suite@),
            ),
            dirty_ok(old(self)@) ==> dirty_ok(final(self)@),
    {
        let ghost files = old(self)@.files;
        let ghost pred = |k: int| has_suite(files[k], from_suite@);
        let n = self.files.len();
        let mut k: usize = 0;
        while k < n
            invariant
                n == self.files@.len(),
                files == old(self)@.files,
                files.len() == n,
                pred == (|k: int| has_suite(files[k], from_suite@)),
                k <= n,
                forall|j: int| 0 <= j < k ==> (#[trigger] self.files@[j])@ == replaced_file(files[j], from_suite@, to_suite@),
                forall|j: int| k <= j < n ==> #[trigger] self.files@[j] == old(self).files@[j],
                self@.modified == mark_where(old(self)@.modified, k as int, pred),
                dirty_ok(old(self)@) ==> dirty_ok(self@),
            decreases n - k,
        {
            assert(files[k as int] == old(self).files@[k as int]@);
            let changed = self.files[k].replace_suite(from_suite, to_suite);
            if changed {
                proof {
                    if dirty_ok(old(self)@) {
                        lemma_mark_ok(self.modified@, n as int, k as int);
                    }
                }
                add_modified(&mut self.modified, k);
            }
            k = k + 1;
        }
        assert(self@.files =~= files.map_values(|f: ListView| replaced_file(f, from_suite@, to_suite@)));
    }

    /// The dist paths, after an upgrade from `from_suite` to `to_suite`, of
    /// the entries that the upgrade moves, in order.
    pub fn dist_upgrade_paths(&self, from_suite: &str, to_suite: &str) -> (r: Vec<String>)
        ensures
            views(r@) == upgrade_paths(all_entries(self@.files), from_suite@, to_suite@),
    {
        let es = self.entries();
        let ghost ev = entry_refs(es@);
        let n = es.len();
        let mut out: Vec<String> = Vec::new();
        let mut i: usize = 0;
        assert(ev.take(0) =~= Seq::<EntryView>::empty());
        assert(views(out@) =~= Seq::<Seq<char>>::empty());
        while i < n
            invariant
                n == ev.len(),
                ev == entry_refs(es@),
                i <= n,
                views(out@) == upgrade_paths(ev.take(i as int), from_suite@, to_suite@),
            decreases n - i,
        {
            assert(ev.take(i + 1).drop_last() =~= ev.take(i as int));
            let e = es[i];
            if starts_with(e.url.as_str(), "http") && starts_with(e.suite.as_str(), from_suite) {
                let mut path = String::from_str(e.url());
                path.append("/dists/");
                path.append(replace(e.suite.as_str(), from_suite, to_suite).as_str());
                let ghost before = views(out@);
                out.push(path);
                assert(views(out@) =~= before.push(path@));
            }
            i = i + 1;
        }
        assert(ev.take(n as int) =~= ev);
        out
    }

    /// The position of the next changed file to write, if any.
    pub fn pending_write(&self) -> (r: Option<usize>)
        ensures
            self@.modified.len() == 0 ==> r is None,
            self@.modified.len() > 0 ==> r == Some(self@.modified[0]),
    {
        if self.modified.len() == 0 {
            None
        } else {
            Some(self.modified[0])
        }
    }

    /// Records that the next changed file was written.
    pub fn mark_written(&mut self)
        ensures
            final(self)@.files == old(self)@.files,
            old(self)@.modified.len() == 0 ==> final(self)@.modified == old(self)@.modified,
            old(self)@.modified.len() > 0 ==> final(self)@.modified == old(self)@.modified.drop_first(),
            dirty_ok(old(self)@) ==> dirty_ok(final(self)@),
    {
        if self.modified.len() > 0 {
            self.modified.remove(0);
            assert(self@.modified =~= old(self)@.modified.drop_first());
        }
    }

    /// Enables or disables the first entry with the url `repo`; `true` is
    /// returned if there was one.
    pub fn repo_modify(&mut self, repo: &str, enabled: bool) -> (r: bool)
        ensures
            match first_file(old(self)@.files, repo@) {
                None => !r && final(self)@ == old(self)@,
                Some(k) => {
                    let f = old(self)@.files[k];
                    let i = first_url(f.lines, repo@)->Some_0;
                    &&& r
                    &&& final(self)@.files == old(self)@.files.update(
                        k,
                        ListView { path: f.path, lines: f.lines.update(i, with_enabled(f.lines[i], enabled)) },
                    )
                    &&& final(self)@.modified == mark(old(self)@.modified, k)
                },
            },
            dirty_ok(old(self)@) ==> dirty_ok(final(self)@),
    {
        let ghost files = old(self)@.files;
        let ghost pred = |k: int| file_has_url(files[k], repo@);
        let n = self.files.len();
        let mut k: usize = 0;
        while k < n
            invariant
                n == self.files@.len(),
                *self == *old(self),
                files == self@.files,
                pred == (|k: int| file_has_url(files[k], repo@)),
                k <= n,
                forall|j: int| 0 <= j < k ==> !#[trigger] pred(j),
            decreases n - k,
        {
            match self.files[k].contains_entry(repo) {
                Some(i) => {
                    assert(files[k as int] == self.files@[k as int]@);
                    proof {
                        lemma_first_where(n as int, pred);
                        lemma_first_url(files[k as int].lines, repo@);
                        assert(pred(k as int));
                        assert(first_where(n as int, pred) == Some(k as int));
                        assert(first_file(files, repo@) == first_where(n as int, pred));
                    }
                    let ghost f = files[k as int];
                    let ghost line = f.lines[i as int];
                    set_line_enabled(&mut self.files[k].lines[i], enabled);
                    assert(self@.files[k as int].lines =~= f.lines.update(i as int, with_enabled(line, enabled)));
                    assert(self@.files =~= files.update(
                        k as int,
                        ListView { path: f.path, lines: f.lines.update(i as int, with_enabled(line, enabled)) },
                    ));
                    proof {
                        if dirty_ok(old(self)@) {
                            lemma_mark_ok(self.modified@, n as int, k as int);
                        }
                    }
                    add_modified(&mut self.modified, k);
                    return true;
                },
                None => {},
            }
            k = k + 1;
        }
        proof {
            lemma_first_where(n as int, pred);
        }
        false
    }
}

/// A failure at position `i` after a successful prefix is the failure of the
/// whole.
proof fn lemma_parse_sources_err(s: Seq<(Seq<char>, Seq<char>)>, i: int)
    requires
        0 <= i < s.len(),
        parse_sources(s.take(i + 1)) is Err,
    ensures
        parse_sources(s) == parse_sources(s.take(i + 1)),
    decreases s.len() - i,
{
    if i + 1 < s.len() {
        assert(s.take(i + 2).drop_last() =~= s.take(i + 1));
        lemma_parse_sources_err(s, i + 1);
    } else {
        assert(s.take(i + 1) =~= s);
    }
}

} // verus!
