use vstd::prelude::*;
use crate::filter::{FilterSpec, contains_str, ext_selected, extension_selected};

verus! {

/// What a filesystem entry turned out to be when it was classified.
/// Anything that is neither a plain directory nor a regular file
/// (symlinks, sockets, entries that could not be classified) is `Other`
/// and is silently skipped, by design.
pub enum EntryKind {
    Directory,
    File,
    Other,
}

/// One classified child of a directory: its full path, its final name
/// component, and its classification.
pub struct FsEntry {
    pub path: String,
    pub name: String,
    pub kind: EntryKind,
}

/// Pending work of a traversal: a directory whose children are still to
/// be enumerated, or a selected file whose path is still to be emitted.
pub enum WorkItem {
    VisitDir(String),
    EmitFile(String),
}

/// What the caller of `Walker::step` must do next: nothing is left,
/// keep stepping, or enumerate the children of the returned directory
/// and hand them to `Walker::on_entries`.
pub enum Step {
    Done,
    Progress,
    NeedDir(String),
}

/// A regular file is selected exactly when its name is not excluded and
/// its extension is a member of the included set.
pub open spec fn selectable_spec(e: FsEntry, f: FilterSpec) -> bool {
    &&& e.kind is File
    &&& !contains_str(f.excluded_names@, e.name@)
    &&& ext_selected(e.name@, f.included_extensions@)
}

/// The work, if any, that one classified entry gives rise to: an excluded
/// name is pruned outright, a directory is to be visited, a selected file
/// is to be emitted, and everything else is skipped.
pub open spec fn entry_item(e: FsEntry, f: FilterSpec) -> Option<WorkItem> {
    if contains_str(f.excluded_names@, e.name@) {
        None
    } else if e.kind is Directory {
        Some(WorkItem::VisitDir(e.path))
    } else if selectable_spec(e, f) {
        Some(WorkItem::EmitFile(e.path))
    } else {
        None
    }
}

/// The work items of a whole directory listing, in enumeration order.
pub open spec fn items_of(entries: Seq<FsEntry>, f: FilterSpec) -> Seq<WorkItem>
    decreases entries.len(),
{
    if entries.len() == 0 {
        Seq::empty()
    } else {
        match entry_item(entries[0], f) {
            Some(it) => seq![it] + items_of(entries.drop_first(), f),
            None => items_of(entries.drop_first(), f),
        }
    }
}

proof fn lemma_reverse_cons(it: WorkItem, rest: Seq<WorkItem>)
    ensures
        (seq![it] + rest).reverse() == rest.reverse().push(it),
{
    assert((seq![it] + rest).reverse() =~= rest.reverse().push(it));
}

impl FsEntry {
    /// True iff this entry is a regular file, its name is not excluded,
    /// and its extension is a member of the included set.
    pub fn is_selectable(&self, f: &FilterSpec) -> (r: bool)
        ensures
            r == selectable_spec(*self, *f),
    {
        match self.kind {
            EntryKind::File => {
                !f.is_excluded(&self.name) && extension_selected(self.name.as_str(), &f.included_extensions)
            },
            _ => false,
        }
    }
}

/// The traversal engine: a depth-first walk driven from outside.
/// The caller repeatedly calls `step`; whenever `step` hands back a
/// directory, the caller enumerates that directory's children (an
/// enumeration failure is reported as an empty listing) and passes the
/// classified entries to `on_entries`. When `step` says `Done`,
/// `selected` holds every selected file path in traversal order.
pub struct Walker {
    pub stack: Vec<WorkItem>,
    pub selected: Vec<String>,
}

impl Walker {
    /// A fresh traversal rooted at `root`.
    pub fn new(root: String) -> (w: Walker)
        ensures
            w.stack@ == seq![WorkItem::VisitDir(root)],
            w.selected@ == Seq::<String>::empty(),
    {
        let mut stack: Vec<WorkItem> = Vec::new();
        stack.push(WorkItem::VisitDir(root));
        Walker { stack, selected: Vec::new() }
    }

    /// One move of the traversal: take the top work item. A file path is
    /// moved to the selected output; a directory is handed back to the
    /// caller for enumeration; an empty stack means the walk is over.
    pub fn step(&mut self) -> (r: Step)
        ensures
            old(self).stack@.len() == 0 ==> (
                r is Done
                && final(self).stack@ == old(self).stack@
                && final(self).selected@ == old(self).selected@
            ),
            old(self).stack@.len() > 0 ==> (match old(self).stack@.last() {
                WorkItem::EmitFile(p) => r is Progress
                    && final(self).stack@ == old(self).stack@.drop_last()
                    && final(self).selected@ == old(self).selected@.push(p),
                WorkItem::VisitDir(d) => r == Step::NeedDir(d)
                    && final(self).stack@ == old(self).stack@.drop_last()
                    && final(self).selected@ == old(self).selected@,
            }),
    {
        match self.stack.pop() {
            None => Step::Done,
            Some(WorkItem::EmitFile(p)) => {
                self.selected.push(p);
                Step::Progress
            },
            Some(WorkItem::VisitDir(d)) => Step::NeedDir(d),
        }
    }

    /// Feed the classified children of the directory that `step` last
    /// handed back. Their work items are pushed so that the earliest
    /// entry comes off the stack first, which keeps the walk depth first
    /// in enumeration order.
    pub fn on_entries(&mut self, entries: Vec<FsEntry>, f: &FilterSpec)
        ensures
            final(self).stack@ == old(self).stack@ + items_of(entries@, *f).reverse(),
            final(self).selected@ == old(self).selected@,
    {
        let ghost orig: Seq<FsEntry> = entries@;
        let ghost stack0: Seq<WorkItem> = self.stack@;
        let ghost sel0: Seq<String> = self.selected@;
        let mut entries = entries;
        while entries.len() > 0
            invariant
                entries@ == orig.subrange(0, entries@.len() as int),
                entries@.len() <= orig.len(),
                self.stack@ == stack0 + items_of(
                    orig.subrange(entries@.len() as int, orig.len() as int),
                    *f,
                ).reverse(),
                self.selected@ == sel0,
            decreases entries.len(),
        {
            let ghost m = entries@.len() as int;
            let e = entries.pop().unwrap();
            proof {
                assert(e == orig[m - 1]);
                assert(entries@ =~= orig.subrange(0, m - 1));
                let s_new = orig.subrange(m - 1, orig.len() as int);
                assert(s_new[0] == orig[m - 1]);
                assert(s_new.drop_first() =~= orig.subrange(m, orig.len() as int));
            }
            let excluded = f.is_excluded(&e.name);
            if !excluded {
                match e.kind {
                    EntryKind::Directory => {
                        self.stack.push(WorkItem::VisitDir(e.path));
                    },
                    EntryKind::File => {
                        if extension_selected(e.name.as_str(), &f.included_extensions) {
                            self.stack.push(WorkItem::EmitFile(e.path));
                        }
                    },
                    EntryKind::Other => {},
                }
            }
            proof {
                let s_new = orig.subrange(m - 1, orig.len() as int);
                let s_old = orig.subrange(m, orig.len() as int);
                match entry_item(orig[m - 1], *f) {
                    Some(it) => {
                        assert(items_of(s_new, *f) == seq![it] + items_of(s_old, *f));
                        lemma_reverse_cons(it, items_of(s_old, *f));
                        assert(self.stack@ =~= stack0 + items_of(s_new, *f).reverse());
                    },
                    None => {
                        assert(items_of(s_new, *f) == items_of(s_old, *f));
                    },
                }
            }
        }
        proof {
            assert(orig.subrange(0, orig.len() as int) =~= orig);
        }
    }

    /// The walk is finished iff no work is pending.
    pub fn is_done(&self) -> (r: bool)
        ensures
            r == (self.stack@.len() == 0),
    {
        self.stack.len() == 0
    }

    /// Hand out the selected paths, in traversal order.
    pub fn into_paths(self) -> (r: Vec<String>)
        ensures
            r@ == self.selected@,
    {
        self.selected
    }
}

/// Every work item of a listing stems from exactly the entries that the
/// filter keeps: an item is produced iff some entry gives rise to it.
pub proof fn lemma_items_membership(entries: Seq<FsEntry>, f: FilterSpec)
    ensures
        forall|it: WorkItem| #[trigger] items_of(entries, f).contains(it)
            <==> exists|i: int| 0 <= i < entries.len() && entry_item(#[trigger] entries[i], f) == Some(it),
    decreases entries.len(),
{
    if entries.len() == 0 {
    } else {
        lemma_items_membership(entries.drop_first(), f);
        let rest = items_of(entries.drop_first(), f);
        assert forall|it: WorkItem| #[trigger] items_of(entries, f).contains(it)
            implies exists|i: int| 0 <= i < entries.len() && entry_item(#[trigger] entries[i], f) == Some(it) by {
            match entry_item(entries[0], f) {
                Some(h) => {
                    assert(items_of(entries, f) == seq![h] + rest);
                    if it == h {
                        assert(entry_item(entries[0], f) == Some(it));
                    } else {
                        let k = choose|k: int| 0 <= k < items_of(entries, f).len()
                            && items_of(entries, f)[k] == it;
                        assert(rest[k - 1] == it);
                        assert(rest.contains(it));
                        let i = choose|i: int| 0 <= i < entries.drop_first().len()
                            && entry_item(entries.drop_first()[i], f) == Some(it);
                        assert(entries.drop_first()[i] == entries[i + 1]);
                        assert(entry_item(entries[i + 1], f) == Some(it));
                    }
                },
                None => {
                    let i = choose|i: int| 0 <= i < entries.drop_first().len()
                        && entry_item(entries.drop_first()[i], f) == Some(it);
                    assert(entries.drop_first()[i] == entries[i + 1]);
                    assert(entry_item(entries[i + 1], f) == Some(it));
                },
            }
        }
        assert forall|it: WorkItem|
            exists|i: int| 0 <= i < entries.len() && entry_item(#[trigger] entries[i], f) == Some(it)
            implies #[trigger] items_of(entries, f).contains(it) by {
            let i = choose|i: int| 0 <= i < entries.len() && entry_item(entries[i], f) == Some(it);
            if i == 0 {
                let h = entry_item(entries[0], f).unwrap();
                assert(items_of(entries, f) == seq![h] + rest);
                assert(items_of(entries, f)[0] == it);
            } else {
                assert(entries.drop_first()[i - 1] == entries[i]);
                assert(rest.contains(it));
                let k = choose|k: int| 0 <= k < rest.len() && rest[k] == it;
                match entry_item(entries[0], f) {
                    Some(h) => {
                        assert(items_of(entries, f) == seq![h] + rest);
                        assert(items_of(entries, f)[k + 1] == it);
                    },
                    None => {
                        assert(items_of(entries, f)[k] == it);
                    },
                }
            }
        }
    }
}

/// Exclusion law at one directory level: an entry whose name is excluded
/// contributes nothing, so an excluded directory is never handed back
/// for enumeration and an excluded file is never selected. Entry paths
/// are assumed pairwise distinct, as the children of a real directory are.
pub proof fn lemma_exclusion(entries: Seq<FsEntry>, f: FilterSpec, i: int)
    requires
        0 <= i < entries.len(),
        contains_str(f.excluded_names@, entries[i].name@),
        forall|k: int, l: int| 0 <= k < entries.len() && 0 <= l < entries.len() && k != l
            ==> (#[trigger] entries[k]).path != (#[trigger] entries[l]).path,
    ensures
        !items_of(entries, f).contains(WorkItem::VisitDir(entries[i].path)),
        !items_of(entries, f).contains(WorkItem::EmitFile(entries[i].path)),
{
    lemma_items_membership(entries, f);
    if items_of(entries, f).contains(WorkItem::VisitDir(entries[i].path)) {
        let k = choose|k: int| 0 <= k < entries.len()
            && entry_item(entries[k], f) == Some(WorkItem::VisitDir(entries[i].path));
        assert(entries[k].path == entries[i].path);
        assert(k == i);
    }
    if items_of(entries, f).contains(WorkItem::EmitFile(entries[i].path)) {
        let k = choose|k: int| 0 <= k < entries.len()
            && entry_item(entries[k], f) == Some(WorkItem::EmitFile(entries[i].path));
        assert(entries[k].path == entries[i].path);
        assert(k == i);
    }
}

/// Extension filtering law at one directory level: a regular file's path
/// is emitted iff its name is not excluded and its extension is a member
/// of the included set. Entry paths are assumed pairwise distinct, as the
/// children of a real directory are.
pub proof fn lemma_extension_filtering(entries: Seq<FsEntry>, f: FilterSpec, i: int)
    requires
        0 <= i < entries.len(),
        entries[i].kind is File,
        forall|k: int, l: int| 0 <= k < entries.len() && 0 <= l < entries.len() && k != l
            ==> (#[trigger] entries[k]).path != (#[trigger] entries[l]).path,
    ensures
        items_of(entries, f).contains(WorkItem::EmitFile(entries[i].path))
            <==> selectable_spec(entries[i], f),
{
    lemma_items_membership(entries, f);
    if items_of(entries, f).contains(WorkItem::EmitFile(entries[i].path)) {
        let k = choose|k: int| 0 <= k < entries.len()
            && entry_item(entries[k], f) == Some(WorkItem::EmitFile(entries[i].path));
        assert(entries[k].path == entries[i].path);
        assert(k == i);
    }
    if selectable_spec(entries[i], f) {
        assert(entry_item(entries[i], f) == Some(WorkItem::EmitFile(entries[i].path)));
    }
}

} // verus!
