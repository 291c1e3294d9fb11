use vstd::prelude::*;
use crate::filter::{FilterSpec, contains_str, ext_selected, extension_selected};
use crate::walker::{EntryKind, FsEntry, Step, Walker, WorkItem, items_of, entry_item};

verus! {

// The traversal policy stated in the large: a whole directory tree as a
// mathematical value, the walk over it, and the law that everything at
// or below an excluded name is invisible to the walk, at any depth. The
// `Walker` of this crate performs the same policy one directory at a
// time; its per-listing laws live beside it.

/// One filesystem entry of the model, with everything below it.
pub struct ModelEntry {
    pub path: Seq<char>,
    pub name: Seq<char>,
    pub node: ModelNode,
}

/// What a model entry is: a directory with its children in enumeration
/// order, a regular file, or anything else (which a walk skips).
pub enum ModelNode {
    Dir { children: Seq<ModelEntry> },
    File,
    Other,
}

/// The file paths the traversal selects at or below one entry, depth
/// first in enumeration order: an excluded name is pruned with its whole
/// subtree, unenumerated; a directory contributes its children's
/// selections in order; a selected file contributes its path.
pub open spec fn walk_entry(e: ModelEntry, f: FilterSpec) -> Seq<Seq<char>>
    decreases e,
{
    if contains_str(f.excluded_names@, e.name) {
        Seq::empty()
    } else {
        match e.node {
            ModelNode::Dir { children } => walk_children(children, f),
            ModelNode::File => if ext_selected(e.name, f.included_extensions@) {
                seq![e.path]
            } else {
                Seq::empty()
            },
            ModelNode::Other => Seq::empty(),
        }
    }
}

/// The selections of a whole directory listing, in order.
pub open spec fn walk_children(cs: Seq<ModelEntry>, f: FilterSpec) -> Seq<Seq<char>>
    decreases cs,
{
    if cs.len() == 0 {
        Seq::empty()
    } else {
        walk_entry(cs[0], f) + walk_children(cs.drop_first(), f)
    }
}

/// `e` with every entry whose name is excluded removed, at every depth.
pub open spec fn prune_entry(e: ModelEntry, f: FilterSpec) -> ModelEntry
    decreases e,
{
    match e.node {
        ModelNode::Dir { children } => ModelEntry {
            node: ModelNode::Dir { children: prune_children(children, f) },
            ..e
        },
        ModelNode::File => e,
        ModelNode::Other => e,
    }
}

/// A listing with its excluded entries removed and the rest pruned.
pub open spec fn prune_children(cs: Seq<ModelEntry>, f: FilterSpec) -> Seq<ModelEntry>
    decreases cs,
{
    if cs.len() == 0 {
        Seq::empty()
    } else if contains_str(f.excluded_names@, cs[0].name) {
        prune_children(cs.drop_first(), f)
    } else {
        seq![prune_entry(cs[0], f)] + prune_children(cs.drop_first(), f)
    }
}

/// A directory tree held in memory: the executable counterpart of
/// `ModelEntry`, for walking a tree whose shape is already known.
pub struct TreeEntry {
    pub path: String,
    pub name: String,
    pub node: TreeNode,
}

/// What a tree entry is: a directory with its children in enumeration
/// order, a regular file, or anything else.
pub enum TreeNode {
    Dir(Vec<TreeEntry>),
    File,
    Other,
}

/// The model value of one in-memory tree entry.
pub open spec fn model_of(e: TreeEntry) -> ModelEntry
    decreases e,
{
    ModelEntry {
        path: e.path@,
        name: e.name@,
        node: match e.node {
            TreeNode::Dir(cs) => ModelNode::Dir { children: models_of(cs@) },
            TreeNode::File => ModelNode::File,
            TreeNode::Other => ModelNode::Other,
        },
    }
}

/// The model values of a listing of in-memory entries.
pub open spec fn models_of(cs: Seq<TreeEntry>) -> Seq<ModelEntry>
    decreases cs,
{
    if cs.len() == 0 {
        Seq::empty()
    } else {
        seq![model_of(cs[0])] + models_of(cs.drop_first())
    }
}

/// `models_of` is the pointwise model of the listing.
pub proof fn lemma_models_of_index(cs: Seq<TreeEntry>)
    ensures
        models_of(cs).len() == cs.len(),
        forall|i: int| 0 <= i < cs.len() ==> models_of(cs)[i] == model_of(#[trigger] cs[i]),
    decreases cs.len(),
{
    if cs.len() > 0 {
        lemma_models_of_index(cs.drop_first());
        assert forall|i: int| 0 <= i < cs.len() implies models_of(cs)[i] == model_of(#[trigger] cs[i]) by {
            if i > 0 {
                assert(cs.drop_first()[i - 1] == cs[i]);
            }
        }
    }
}

/// The characters of each path in a list.
pub open spec fn path_views(paths: Seq<String>) -> Seq<Seq<char>> {
    Seq::new(paths.len(), |i: int| paths[i]@)
}

/// Walk an in-memory tree: returns exactly the paths that the traversal
/// policy selects at or below `e`, depth first in enumeration order.
pub fn walk_tree(e: &TreeEntry, f: &FilterSpec) -> (r: Vec<String>)
    ensures
        path_views(r@) == walk_entry(model_of(*e), *f),
    decreases *e,
{
    if f.is_excluded(&e.name) {
        let r: Vec<String> = Vec::new();
        proof {
            assert(path_views(r@) =~= walk_entry(model_of(*e), *f));
        }
        return r;
    }
    match &e.node {
        TreeNode::Dir(children) => {
            let ghost ms: Seq<ModelEntry> = models_of(children@);
            proof {
                lemma_models_of_index(children@);
                assert(ms.subrange(0, ms.len() as int) =~= ms);
            }
            let mut out: Vec<String> = Vec::new();
            let mut i: usize = 0;
            while i < children.len()
                invariant
                    i <= children.len(),
                    ms == models_of(children@),
                    ms.len() == children@.len(),
                    e.node matches TreeNode::Dir(cs) && cs == *children,
                    path_views(out@) + walk_children(ms.subrange(i as int, ms.len() as int), *f)
                        =~= walk_children(ms, *f),
                decreases children.len() - i,
            {
                proof {
                    lemma_models_of_index(children@);
                    assert(e.node is Dir);
                    let cs = e.node->Dir_0;
                    assert(cs == *children);
                    assert(decreases_to!(*e => e.node));
                    assert(decreases_to!(e.node => cs));
                    assert(decreases_to!(cs => cs@[i as int]));
                    assert(decreases_to!(*e => children@[i as int]));
                    let tail = ms.subrange(i as int, ms.len() as int);
                    assert(tail[0] == model_of(children@[i as int]));
                    assert(tail.drop_first() =~= ms.subrange(i as int + 1, ms.len() as int));
                }
                let mut sub = walk_tree(&children[i], f);
                let ghost out_before: Seq<String> = out@;
                let ghost sub_views: Seq<Seq<char>> = path_views(sub@);
                out.append(&mut sub);
                proof {
                    assert(path_views(out@)
                        =~= path_views(out_before) + sub_views);
                }
                i = i + 1;
            }
            proof {
                assert(ms.subrange(ms.len() as int, ms.len() as int)
                    =~= Seq::<ModelEntry>::empty());
                assert(path_views(out@) =~= walk_children(ms, *f));
            }
            out
        },
        TreeNode::File => {
            if extension_selected(e.name.as_str(), &f.included_extensions) {
                let mut r: Vec<String> = Vec::new();
                r.push(e.path.clone());
                proof {
                    assert(path_views(r@) =~= seq![e.path@]);
                }
                r
            } else {
                let r: Vec<String> = Vec::new();
                proof {
                    assert(path_views(r@) =~= walk_entry(model_of(*e), *f));
                }
                r
            }
        },
        TreeNode::Other => {
            let r: Vec<String> = Vec::new();
            proof {
                assert(path_views(r@) =~= walk_entry(model_of(*e), *f));
            }
            r
        },
    }
}

/// One classified entry and its model agree on path, name and kind.
pub open spec fn entry_matches(e: FsEntry, m: ModelEntry) -> bool {
    &&& e.path@ == m.path
    &&& e.name@ == m.name
    &&& (match (e.kind, m.node) {
        (EntryKind::Directory, ModelNode::Dir { .. }) => true,
        (EntryKind::File, ModelNode::File) => true,
        (EntryKind::Other, ModelNode::Other) => true,
        _ => false,
    })
}

/// The selections still owed by a walker's pending work: its stack read
/// from the top down, with `dirs` supplying, top down, the children of
/// each directory still to be enumerated. Nothing when the two do not
/// line up.
pub open spec fn pending_selections(
    stack: Seq<WorkItem>,
    dirs: Seq<Seq<ModelEntry>>,
    f: FilterSpec,
) -> Option<Seq<Seq<char>>>
    decreases stack.len(),
{
    if stack.len() == 0 {
        if dirs.len() == 0 {
            Some(Seq::empty())
        } else {
            None
        }
    } else {
        match stack.last() {
            WorkItem::EmitFile(p) => match pending_selections(stack.drop_last(), dirs, f) {
                Some(r) => Some(seq![p@] + r),
                None => None,
            },
            WorkItem::VisitDir(_) => if dirs.len() == 0 {
                None
            } else {
                match pending_selections(stack.drop_last(), dirs.drop_last(), f) {
                    Some(r) => Some(walk_children(dirs.last(), f) + r),
                    None => None,
                }
            },
        }
    }
}

/// How much work one entry's subtree still takes: one move for the entry
/// and one for everything below it.
pub open spec fn entry_size(m: ModelEntry) -> nat
    decreases m,
{
    match m.node {
        ModelNode::Dir { children } => 1 + children_size(children),
        ModelNode::File => 1,
        ModelNode::Other => 1,
    }
}

/// The work of a whole listing.
pub open spec fn children_size(ms: Seq<ModelEntry>) -> nat
    decreases ms,
{
    if ms.len() == 0 {
        0
    } else {
        entry_size(ms[0]) + children_size(ms.drop_first())
    }
}

/// The moves a walker still has to make, measured against the pending
/// directories' subtrees.
pub open spec fn pending_work(stack: Seq<WorkItem>, dirs: Seq<Seq<ModelEntry>>) -> nat
    decreases stack.len(),
{
    if stack.len() == 0 {
        0
    } else {
        match stack.last() {
            WorkItem::EmitFile(_) => 1 + pending_work(stack.drop_last(), dirs),
            WorkItem::VisitDir(_) => if dirs.len() == 0 {
                0
            } else {
                1 + children_size(dirs.last()) + pending_work(stack.drop_last(), dirs.drop_last())
            },
        }
    }
}

/// The children listings, top down, that enumerating one listing adds to
/// the pending directories: one per directory entry that is not excluded,
/// in reverse entry order, matching the order the walker stacks them.
pub open spec fn dirs_to_push(ms: Seq<ModelEntry>, f: FilterSpec) -> Seq<Seq<ModelEntry>>
    decreases ms,
{
    if ms.len() == 0 {
        Seq::empty()
    } else {
        dirs_to_push(ms.drop_first(), f) + head_dir(ms[0], f)
    }
}

/// The children of one entry, if the walker will enumerate it.
pub open spec fn head_dir(m: ModelEntry, f: FilterSpec) -> Seq<Seq<ModelEntry>> {
    if !contains_str(f.excluded_names@, m.name) && m.node is Dir {
        seq![m.node->Dir_children]
    } else {
        Seq::empty()
    }
}

/// Feeding one enumerated listing to the walker leaves exactly that
/// listing's selections owed, before whatever was owed already, and
/// costs at most the listing's whole subtree in work.
pub proof fn lemma_pending_extend(
    stack0: Seq<WorkItem>,
    dirs0: Seq<Seq<ModelEntry>>,
    entries: Seq<FsEntry>,
    ms: Seq<ModelEntry>,
    f: FilterSpec,
)
    requires
        entries.len() == ms.len(),
        forall|i: int| 0 <= i < entries.len() ==> entry_matches(#[trigger] entries[i], ms[i]),
    ensures
        pending_selections(stack0 + items_of(entries, f).reverse(), dirs0 + dirs_to_push(ms, f), f)
            == (match pending_selections(stack0, dirs0, f) {
                Some(r) => Some(walk_children(ms, f) + r),
                None => None::<Seq<Seq<char>>>,
            }),
        pending_work(stack0 + items_of(entries, f).reverse(), dirs0 + dirs_to_push(ms, f))
            <= children_size(ms) + pending_work(stack0, dirs0),
    decreases entries.len(),
{
    if entries.len() == 0 {
        assert(stack0 + items_of(entries, f).reverse() =~= stack0);
        assert(dirs0 + dirs_to_push(ms, f) =~= dirs0);
        if pending_selections(stack0, dirs0, f) is Some {
            assert(walk_children(ms, f) + pending_selections(stack0, dirs0, f).unwrap()
                =~= pending_selections(stack0, dirs0, f).unwrap());
        }
    } else {
        let e0 = entries[0];
        let m0 = ms[0];
        let erest = entries.drop_first();
        let mrest = ms.drop_first();
        assert(forall|i: int| 0 <= i < erest.len()
            ==> entry_matches(#[trigger] erest[i], mrest[i]) && erest[i] == entries[i + 1]);
        lemma_pending_extend(stack0, dirs0, erest, mrest, f);
        let stack1 = stack0 + items_of(erest, f).reverse();
        let dirs1 = dirs0 + dirs_to_push(mrest, f);
        let p0 = pending_selections(stack0, dirs0, f);
        let p1 = pending_selections(stack1, dirs1, f);
        match entry_item(e0, f) {
            None => {
                assert(items_of(entries, f) == items_of(erest, f));
                assert(head_dir(m0, f) =~= Seq::<Seq<ModelEntry>>::empty());
                assert(dirs_to_push(ms, f) =~= dirs_to_push(mrest, f));
                assert(walk_entry(m0, f) =~= Seq::<Seq<char>>::empty());
                assert(walk_children(ms, f) =~= walk_children(mrest, f));
                if p0 is Some {
                    assert(walk_children(ms, f) + p0.unwrap()
                        =~= walk_children(mrest, f) + p0.unwrap());
                }
            },
            Some(it) => {
                assert(items_of(entries, f) == seq![it] + items_of(erest, f));
                assert((seq![it] + items_of(erest, f)).reverse()
                    =~= items_of(erest, f).reverse().push(it));
                let stack2 = stack0 + items_of(entries, f).reverse();
                assert(stack2 =~= stack1.push(it));
                assert(stack2.len() > 0 && stack2.last() == it);
                assert(stack2.drop_last() =~= stack1);
                match it {
                    WorkItem::EmitFile(p) => {
                        assert(p == e0.path);
                        assert(head_dir(m0, f) =~= Seq::<Seq<ModelEntry>>::empty());
                        let dirs2 = dirs0 + dirs_to_push(ms, f);
                        assert(dirs2 =~= dirs1);
                        assert(walk_entry(m0, f) == seq![m0.path]);
                        if p0 is Some {
                            assert(p1 == Some(walk_children(mrest, f) + p0.unwrap()));
                            assert(seq![p@] + (walk_children(mrest, f) + p0.unwrap())
                                =~= walk_children(ms, f) + p0.unwrap());
                        }
                        assert(children_size(ms) == entry_size(m0) + children_size(mrest));
                        assert(m0.node is File);
                        assert(entry_size(m0) == 1);
                    },
                    WorkItem::VisitDir(d) => {
                        assert(d == e0.path);
                        let cs0 = m0.node->Dir_children;
                        assert(head_dir(m0, f) == seq![cs0]);
                        let dirs2 = dirs0 + dirs_to_push(ms, f);
                        assert(dirs2 =~= dirs1.push(cs0));
                        assert(dirs2.len() > 0 && dirs2.last() == cs0);
                        assert(dirs2.drop_last() =~= dirs1);
                        assert(walk_entry(m0, f) == walk_children(cs0, f));
                        if p0 is Some {
                            assert(p1 == Some(walk_children(mrest, f) + p0.unwrap()));
                            assert(walk_children(cs0, f) + (walk_children(mrest, f) + p0.unwrap())
                                =~= walk_children(ms, f) + p0.unwrap());
                        }
                        assert(children_size(ms) == entry_size(m0) + children_size(mrest));
                        assert(entry_size(m0) == 1 + children_size(cs0));
                    },
                }
            },
        }
    }
}

/// What a walk rooted at `m` selects: the root itself is always
/// enumerated (exclusion applies to the entries found during the walk),
/// and a root that is no directory yields nothing.
pub open spec fn walk_root(m: ModelEntry, f: FilterSpec) -> Seq<Seq<char>> {
    match m.node {
        ModelNode::Dir { children } => walk_children(children, f),
        ModelNode::File => Seq::empty(),
        ModelNode::Other => Seq::empty(),
    }
}

/// The models of the pending directories' listings, top down.
pub open spec fn shadow_models(sh: Seq<&Vec<TreeEntry>>) -> Seq<Seq<ModelEntry>> {
    Seq::new(sh.len(), |i: int| models_of(sh[i]@))
}

/// Walk an in-memory tree by driving the `Walker` exactly as a
/// filesystem driver does, answering each directory request from the
/// tree: the walker computes precisely the model walk rooted there.
pub fn walk_tree_driven(root: &TreeEntry, f: &FilterSpec) -> (r: Vec<String>)
    ensures
        path_views(r@) == walk_root(model_of(*root), *f),
{
    let no_children: Vec<TreeEntry> = Vec::new();
    let mut w = Walker::new(root.path.clone());
    let mut shadow: Vec<&Vec<TreeEntry>> = Vec::new();
    match &root.node {
        TreeNode::Dir(children) => {
            shadow.push(children);
        },
        _ => {
            shadow.push(&no_children);
        },
    }
    let ghost total: Seq<Seq<char>> = walk_root(model_of(*root), *f);
    proof {
        assert(shadow_models(shadow@) =~= seq![models_of(shadow@[0]@)]);
        assert(w.stack@.drop_last() =~= Seq::<WorkItem>::empty());
        assert(shadow_models(shadow@).len() == 1);
        assert(shadow_models(shadow@).last() == models_of(shadow@[0]@));
        assert(shadow_models(shadow@).drop_last() =~= Seq::<Seq<ModelEntry>>::empty());
        assert(pending_selections(Seq::<WorkItem>::empty(), Seq::<Seq<ModelEntry>>::empty(), *f)
            == Some(Seq::<Seq<char>>::empty()));
        assert(w.stack@.len() == 1 && w.stack@.last() is VisitDir);
        assert(pending_selections(w.stack@, shadow_models(shadow@), *f)
            == Some(walk_children(models_of(shadow@[0]@), *f) + Seq::<Seq<char>>::empty()));
        assert(walk_children(models_of(shadow@[0]@), *f) + Seq::<Seq<char>>::empty()
            =~= walk_children(models_of(shadow@[0]@), *f));
        assert(models_of(no_children@) =~= Seq::<ModelEntry>::empty());
        assert(walk_children(models_of(shadow@[0]@), *f) == total);
        assert(path_views(w.selected@) + total =~= total);
    }
    loop
        invariant
            total == walk_root(model_of(*root), *f),
            pending_selections(w.stack@, shadow_models(shadow@), *f) is Some,
            path_views(w.selected@)
                + pending_selections(w.stack@, shadow_models(shadow@), *f).unwrap() == total,
        ensures
            path_views(w.selected@) == total,
        decreases pending_work(w.stack@, shadow_models(shadow@)),
    {
        let ghost stack_old = w.stack@;
        let ghost dirs_old = shadow_models(shadow@);
        let ghost sel_old = w.selected@;
        match w.step() {
            Step::Done => {
                proof {
                    assert(dirs_old.len() == 0);
                    assert(path_views(w.selected@) + Seq::<Seq<char>>::empty()
                        =~= path_views(w.selected@));
                }
                break;
            },
            Step::Progress => {
                proof {
                    assert(stack_old.len() > 0 && stack_old.last() is EmitFile);
                    let p = stack_old.last()->EmitFile_0;
                    let inner = pending_selections(stack_old.drop_last(), dirs_old, *f);
                    assert(inner is Some);
                    assert(path_views(w.selected@) =~= path_views(sel_old).push(p@));
                    assert(path_views(sel_old).push(p@) + inner.unwrap()
                        =~= path_views(sel_old) + (seq![p@] + inner.unwrap()));
                }
            },
            Step::NeedDir(_dir) => {
                proof {
                    assert(stack_old.len() > 0 && stack_old.last() is VisitDir);
                    assert(dirs_old.len() > 0);
                    assert(shadow@.len() == dirs_old.len());
                }
                let children_ref = shadow.pop().unwrap();
                let ghost msc: Seq<ModelEntry> = models_of(children_ref@);
                let ghost dirs_base = shadow_models(shadow@);
                proof {
                    assert(dirs_base =~= dirs_old.drop_last());
                    assert(dirs_old.last() == msc);
                    lemma_models_of_index(children_ref@);
                }
                let mut entries: Vec<FsEntry> = Vec::new();
                let mut idx: usize = 0;
                while idx < children_ref.len()
                    invariant
                        idx <= children_ref.len(),
                        entries@.len() == idx,
                        msc == models_of(children_ref@),
                        msc.len() == children_ref@.len(),
                        forall|i: int| 0 <= i < idx
                            ==> entry_matches(#[trigger] entries@[i], msc[i]),
                    decreases children_ref.len() - idx,
                {
                    let c = &children_ref[idx];
                    let kind = match &c.node {
                        TreeNode::Dir(_) => EntryKind::Directory,
                        TreeNode::File => EntryKind::File,
                        TreeNode::Other => EntryKind::Other,
                    };
                    let fs_entry = FsEntry { path: c.path.clone(), name: c.name.clone(), kind };
                    proof {
                        lemma_models_of_index(children_ref@);
                        assert(msc[idx as int] == model_of(children_ref@[idx as int]));
                        assert(entry_matches(fs_entry, msc[idx as int]));
                    }
                    entries.push(fs_entry);
                    idx = idx + 1;
                }
                let ghost shadow_mid = shadow@;
                let mut k: usize = children_ref.len();
                proof {
                    assert(msc.subrange(k as int, msc.len() as int)
                        =~= Seq::<ModelEntry>::empty());
                    assert(shadow_models(shadow@)
                        =~= shadow_models(shadow_mid)
                            + dirs_to_push(msc.subrange(k as int, msc.len() as int), *f));
                }
                while k > 0
                    invariant
                        k <= children_ref.len(),
                        msc == models_of(children_ref@),
                        msc.len() == children_ref@.len(),
                        shadow_models(shadow@) == shadow_models(shadow_mid)
                            + dirs_to_push(msc.subrange(k as int, msc.len() as int), *f),
                    decreases k,
                {
                    k = k - 1;
                    let c = &children_ref[k];
                    let ghost shadow_prev = shadow@;
                    let excl = f.is_excluded(&c.name);
                    match &c.node {
                        TreeNode::Dir(gc) => {
                            if !excl {
                                shadow.push(gc);
                                proof {
                                    assert(shadow_models(shadow@)
                                        =~= shadow_models(shadow_prev) + seq![models_of(gc@)]);
                                }
                            }
                        },
                        _ => {},
                    }
                    proof {
                        lemma_models_of_index(children_ref@);
                        assert(msc[k as int] == model_of(children_ref@[k as int]));
                        let tail_old = msc.subrange(k as int + 1, msc.len() as int);
                        let tail_new = msc.subrange(k as int, msc.len() as int);
                        assert(tail_new[0] == msc[k as int]);
                        assert(tail_new.drop_first() =~= tail_old);
                        assert(dirs_to_push(tail_new, *f)
                            == dirs_to_push(tail_old, *f) + head_dir(msc[k as int], *f));
                        assert(shadow_models(shadow@)
                            =~= shadow_models(shadow_mid) + dirs_to_push(tail_new, *f));
                    }
                }
                proof {
                    assert(msc.subrange(0, msc.len() as int) =~= msc);
                }
                let ghost stack_base = w.stack@;
                w.on_entries(entries, f);
                proof {
                    lemma_pending_extend(stack_base, dirs_base, entries@, msc, *f);
                    let inner = pending_selections(stack_base, dirs_base, *f);
                    assert(inner is Some);
                    assert(pending_selections(stack_old, dirs_old, *f).unwrap()
                        =~= walk_children(msc, *f) + inner.unwrap());
                    assert(pending_work(stack_old, dirs_old)
                        == 1 + children_size(msc) + pending_work(stack_base, dirs_base));
                }
            },
        }
    }
    w.into_paths()
}

/// Exclusion law at any depth: the walk of a tree equals the walk of the
/// tree with every excluded entry and its whole subtree removed, so
/// nothing at or below an excluded name is ever selected or enumerated.
pub proof fn lemma_prune_invisible(e: ModelEntry, f: FilterSpec)
    ensures
        walk_entry(e, f) == walk_entry(prune_entry(e, f), f),
    decreases e,
{
    let pe = prune_entry(e, f);
    match e.node {
        ModelNode::Dir { children } => {
            assert(pe.name == e.name && pe.path == e.path);
            if contains_str(f.excluded_names@, e.name) {
            } else {
                lemma_prune_children_invisible(children, f);
            }
        },
        ModelNode::File => {},
        ModelNode::Other => {},
    }
}

/// Exclusion law for one listing: walking it and walking its pruned form
/// select the same paths in the same order.
pub proof fn lemma_prune_children_invisible(cs: Seq<ModelEntry>, f: FilterSpec)
    ensures
        walk_children(cs, f) == walk_children(prune_children(cs, f), f),
    decreases cs,
{
    if cs.len() == 0 {
    } else {
        let rest = cs.drop_first();
        lemma_prune_children_invisible(rest, f);
        if contains_str(f.excluded_names@, cs[0].name) {
            assert(walk_entry(cs[0], f) =~= Seq::<Seq<char>>::empty());
            assert(walk_children(cs, f) =~= walk_children(rest, f));
        } else {
            lemma_prune_invisible(cs[0], f);
            let pcs = prune_children(cs, f);
            assert(pcs == seq![prune_entry(cs[0], f)] + prune_children(rest, f));
            assert(pcs[0] == prune_entry(cs[0], f));
            assert(pcs.drop_first() =~= prune_children(rest, f));
            assert(walk_children(pcs, f)
                == walk_entry(prune_entry(cs[0], f), f) + walk_children(prune_children(rest, f), f));
        }
    }
}

} // verus!
