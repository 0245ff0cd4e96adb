//! A walk over all lines of all source lists, announcing each file.
use vstd::prelude::*;

use crate::source_line::{LineView, SourceLine};
use crate::sources_list::ListView;
use crate::sources_lists::SourcesLists;

verus! {

/// One step of a walk over the source lists.
#[derive(Debug)]
pub enum SourceEvent<'a> {
    /// The lines that follow belong to the file at this path.
    NewList(&'a String),
    /// A line of the current file.
    Entry(&'a SourceLine),
}

/// What a `SourceEvent` reports, as plain values.
pub ghost enum EventView {
    NewList(Seq<char>),
    Entry(LineView),
}

impl<'a> View for SourceEvent<'a> {
    type V = EventView;

    open spec fn view(&self) -> EventView {
        match self {
            SourceEvent::NewList(p) => EventView::NewList(p@),
            SourceEvent::Entry(l) => EventView::Entry(l@),
        }
    }
}

/// The events of the file `f`: its path, then each of its lines; nothing
/// for a file without lines.
pub open spec fn file_events(f: ListView) -> Seq<EventView> {
    if f.lines.len() == 0 {
        seq![]
    } else {
        seq![EventView::NewList(f.path)] + f.lines.map_values(|l: LineView| EventView::Entry(l))
    }
}

/// The events of the files `files`, file after file.
pub open spec fn events_of(files: Seq<ListView>) -> Seq<EventView>
    decreases files.len(),
{
    if files.len() == 0 {
        seq![]
    } else {
        events_of(files.drop_last()) + file_events(files.last())
    }
}

proof fn lemma_events_prefix(files: Seq<ListView>, m: int)
    requires
        0 <= m <= files.len(),
    ensures
        events_of(files.take(m)).is_prefix_of(events_of(files)),
    decreases files.len() - m,
{
    if m < files.len() {
        lemma_events_prefix(files, m + 1);
        assert(files.take(m + 1).drop_last() =~= files.take(m));
    } else {
        assert(files.take(m) =~= files);
    }
}

/// An iterator over the lines of all source lists: each file with lines is
/// announced by its path before its lines.
pub struct SourcesIter<'a> {
    /// The lists walked over.
    pub list: &'a SourcesLists,
    /// The position of the current file.
    pub file: usize,
    /// The number of lines of the current file already handed out.
    pub line: usize,
    /// Whether the current file was announced.
    pub started: bool,
}

impl<'a> SourcesIter<'a> {
    /// Whether the walk is in a state that `new` and `next` reach.
    pub open spec fn wf(&self) -> bool {
        let files = self.list@.files;
        &&& self.file <= files.len()
        &&& self.started ==> self.file < files.len() && 0 < files[self.file as int].lines.len()
            && self.line <= files[self.file as int].lines.len()
        &&& !self.started ==> self.line == 0
    }

    /// The events of the whole walk.
    pub open spec fn events(&self) -> Seq<EventView> {
        events_of(self.list@.files)
    }

    /// How many events of the walk were handed out.
    pub open spec fn pos(&self) -> int {
        events_of(self.list@.files.take(self.file as int)).len() + if self.started {
            1 + self.line
        } else {
            0
        }
    }

    /// A walk over `list` from its start.
    pub fn new(list: &'a SourcesLists) -> (r: Self)
        ensures
            r.wf(),
            r.list == list,
            r.pos() == 0,
    {
        let r = Self { list, file: 0, line: 0, started: false };
        assert(list@.files.take(0) =~= Seq::<ListView>::empty());
        r
    }

    /// The next event of the walk, if any is left.
    pub fn next(&mut self) -> (r: Option<SourceEvent<'a>>)
        ensures
            final(self).list == old(self).list,
            old(self).wf() ==> final(self).wf(),
            old(self).wf() ==> match r {
                None => old(self).pos() == old(self).events().len() && final(self).pos() == old(self).pos(),
                Some(ev) => 0 <= old(self).pos() < old(self).events().len() && ev@ == old(self).events()[old(self).pos()]
                    && final(self).pos() == old(self).pos() + 1,
            },
    {
        let ghost files = self.list@.files;
        let ghost start = old(self).pos();
        let n = self.list.files.len();
        while self.file < n
            invariant
                self.list == old(self).list,
                files == self.list@.files,
                n == files.len(),
                old(self).wf() ==> self.wf() && self.pos() == start,
                start == old(self).pos(),
            decreases n - self.file,
        {
            let list: &'a SourcesLists = self.list;
            let lines = &list.files[self.file].lines;
            let ghost f = files[self.file as int];
            assert(f == list.files@[self.file as int]@);
            proof {
                lemma_events_prefix(files, self.file + 1);
                assert(files.take(self.file + 1).drop_last() =~= files.take(self.file as int));
                assert(files.take(self.file + 1).last() == f);
            }
            let ghost e0: int = events_of(files.take(self.file as int)).len() as int;
            let ghost pre = events_of(files.take(self.file + 1));
            assert(pre == events_of(files.take(self.file as int)) + file_events(f));
            if !self.started {
                if lines.len() > 0 {
                    self.started = true;
                    assert(file_events(f)[0] == EventView::NewList(f.path));
                    assert(pre[e0] == file_events(f)[0]);
                    assert(events_of(files)[e0] == pre[e0]);
                    return Some(SourceEvent::NewList(&list.files[self.file].path));
                }
                assert(files.take(self.file + 1) =~= files.take(self.file as int).push(f));
                assert(file_events(f) =~= Seq::<EventView>::empty());
                self.file = self.file + 1;
            } else if self.line < lines.len() {
                let i = self.line;
                self.line = self.line + 1;
                assert(f.lines[i as int] == lines@[i as int]@);
                proof {
                    if old(self).wf() {
                        assert(file_events(f)[1 + i] == EventView::Entry(f.lines[i as int]));
                        assert(pre[e0 + 1 + i] == file_events(f)[1 + i]);
                        assert(events_of(files)[e0 + 1 + i] == pre[e0 + 1 + i]);
                    }
                }
                return Some(SourceEvent::Entry(&lines[i]));
            } else {
                proof {
                    if old(self).wf() {
                        assert(file_events(f).len() == 1 + f.lines.len());
                    }
                }
                self.file = self.file + 1;
                self.line = 0;
                self.started = false;
            }
        }
        proof {
            assert(files.take(n as int) =~= files);
        }
        None
    }
}

} // verus!
