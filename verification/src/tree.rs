//! The tree builder: a forest of named nodes grown from path records by
//! merging shared prefixes, children kept in first-seen order.

use vstd::prelude::*;
use crate::split::{segments_of, split_record, string_views};

verus! {

/// One path segment at one position in the forest. Children are kept in
/// first-seen order, and no two children of one node share a name.
#[derive(Debug, PartialEq, Eq)]
pub struct FileTree {
    pub name: String,
    pub childs: Vec<FileTree>,
}

/// Mathematical model of a `FileTree`: the same shape over sequences.
#[verifier::ext_equal]
pub struct TreeModel {
    pub name: Seq<char>,
    pub childs: Seq<TreeModel>,
}

impl View for FileTree {
    type V = TreeModel;

    open spec fn view(&self) -> TreeModel
        decreases *self, 0int,
    {
        TreeModel { name: self.name@, childs: forest_model_from(self.childs, 0) }
    }
}

/// Models the tail `v[i..]` of a vector of trees, element by element.
pub open spec fn forest_model_from(v: Vec<FileTree>, i: int) -> Seq<TreeModel>
    decreases v, v@.len() - i,
{
    if i < 0 || i >= v@.len() {
        Seq::empty()
    } else {
        seq![v@[i]@] + forest_model_from(v, i + 1)
    }
}

/// Model of a whole vector of trees, as the forest of their models.
pub open spec fn forest_model(v: Vec<FileTree>) -> Seq<TreeModel> {
    forest_model_from(v, 0)
}

pub proof fn lemma_forest_model_from(v: Vec<FileTree>, i: int)
    requires
        0 <= i <= v@.len(),
    ensures
        forest_model_from(v, i).len() == v@.len() - i,
        forall|k: int|
            0 <= k < v@.len() - i ==> forest_model_from(v, i)[k] == v@[i + k]@,
    decreases v@.len() - i,
{
    if i < v@.len() {
        lemma_forest_model_from(v, i + 1);
        assert(forest_model_from(v, i) == seq![v@[i]@] + forest_model_from(v, i + 1));
        assert forall|k: int| 0 <= k < v@.len() - i implies forest_model_from(v, i)[k] == v@[i
            + k]@ by {
            if k > 0 {
                assert(forest_model_from(v, i + 1)[k - 1] == v@[i + 1 + (k - 1)]@);
                assert((seq![v@[i]@] + forest_model_from(v, i + 1))[k] == forest_model_from(
                    v,
                    i + 1,
                )[k - 1]);
            }
        }
    } else {
        assert(forest_model_from(v, i) =~= Seq::<TreeModel>::empty());
    }
}

/// The forest of models is the vector of trees, member by member.
pub proof fn lemma_forest_model(v: Vec<FileTree>)
    ensures
        forest_model(v).len() == v@.len(),
        forall|k: int| 0 <= k < v@.len() ==> forest_model(v)[k] == v@[k]@,
{
    lemma_forest_model_from(v, 0);
    assert forall|k: int| 0 <= k < v@.len() implies forest_model(v)[k] == v@[k]@ by {
        assert(forest_model_from(v, 0)[k] == v@[0 + k]@);
    }
}

/// The index of the first tree in `f[i..]` whose name is `name`, or `-1` if
/// there is none.
pub open spec fn find_child_from(f: Seq<TreeModel>, name: Seq<char>, i: int) -> int
    decreases f.len() - i,
{
    if i < 0 || i >= f.len() {
        -1
    } else if f[i].name == name {
        i
    } else {
        find_child_from(f, name, i + 1)
    }
}

/// The index of the first tree in `f` whose name is `name`, or `-1`.
pub open spec fn find_child(f: Seq<TreeModel>, name: Seq<char>) -> int {
    find_child_from(f, name, 0)
}

pub proof fn lemma_find_child_from(f: Seq<TreeModel>, name: Seq<char>, i: int)
    requires
        0 <= i <= f.len(),
    ensures
        ({
            let r = find_child_from(f, name, i);
            (r == -1 && (forall|k: int| i <= k < f.len() ==> f[k].name != name)) || (i <= r
                < f.len() && f[r].name == name && (forall|k: int| i <= k < r ==> f[k].name != name))
        }),
    decreases f.len() - i,
{
    if i < f.len() && f[i].name != name {
        lemma_find_child_from(f, name, i + 1);
    }
}

/// Inserting one decomposed record into a forest: walk the segments, descend
/// into the first child that already carries the segment's name, append a new
/// child when there is none.
pub open spec fn forest_insert(f: Seq<TreeModel>, segs: Seq<Seq<char>>) -> Seq<TreeModel>
    decreases segs.len(),
{
    if segs.len() == 0 {
        f
    } else {
        let j = find_child(f, segs[0]);
        if 0 <= j < f.len() {
            f.update(j, TreeModel { name: f[j].name, childs: forest_insert(f[j].childs, segs.skip(1)) })
        } else {
            f.push(TreeModel { name: segs[0], childs: forest_insert(Seq::empty(), segs.skip(1)) })
        }
    }
}

/// The forest grown from `f` by inserting the records `records[i..]`, each
/// decomposed into its segments, in order.
pub open spec fn build_forest_from(f: Seq<TreeModel>, records: Seq<Seq<char>>, i: int) -> Seq<
    TreeModel,
>
    decreases records.len() - i,
{
    if i < 0 || i >= records.len() {
        f
    } else {
        build_forest_from(forest_insert(f, segments_of(records[i])), records, i + 1)
    }
}

/// The forest built from a sequence of records, in order, starting empty.
pub open spec fn build_forest(records: Seq<Seq<char>>) -> Seq<TreeModel> {
    build_forest_from(Seq::empty(), records, 0)
}

impl FileTree {
    /// Inserts the segments `segs[from..]` under this node: walks down
    /// existing children with matching names and appends new ones where no
    /// match exists.
    pub fn add(&mut self, segs: &Vec<String>, from: usize)
        requires
            from <= segs@.len(),
        ensures
            final(self)@.name == old(self)@.name,
            final(self)@.childs == forest_insert(
                old(self)@.childs,
                string_views(segs@).skip(from as int),
            ),
        decreases segs@.len() - from,
    {
        proof {
            let sv = string_views(segs@).skip(from as int);
            if from == segs@.len() {
                assert(sv =~= Seq::<Seq<char>>::empty());
            }
        }
        if from < segs.len() {
            let ghost fm = forest_model(self.childs);
            let ghost nm = segs@[from as int]@;
            let ghost sv = string_views(segs@).skip(from as int);
            proof {
                lemma_forest_model(self.childs);
                assert(sv[0] == nm);
                assert(sv.skip(1) =~= string_views(segs@).skip(from + 1));
            }
            let n = self.childs.len();
            let mut j: usize = 0;
            let mut found = false;
            while j < n && !found
                invariant
                    n == self.childs@.len(),
                    j <= n,
                    *self == *old(self),
                    fm == forest_model(self.childs),
                    fm.len() == n,
                    forall|k: int| 0 <= k < n ==> fm[k] == self.childs@[k]@,
                    nm == segs@[from as int]@,
                    from < segs@.len(),
                    !found ==> find_child(fm, nm) == find_child_from(fm, nm, j as int),
                    found ==> j < n && find_child(fm, nm) == j && fm[j as int].name == nm,
                decreases n - j + (if found { 0int } else { 1int }),
            {
                if self.childs[j].name == segs[from] {
                    proof {
                        assert(fm[j as int].name == nm);
                        assert(find_child_from(fm, nm, j as int) == j);
                    }
                    found = true;
                } else {
                    proof {
                        assert(find_child_from(fm, nm, j as int) == find_child_from(
                            fm,
                            nm,
                            j + 1,
                        ));
                    }
                    j += 1;
                }
            }
            if found {
                let mut child = self.childs.remove(j);
                proof {
                    assert(old(self).childs@[j as int] == child);
                }
                child.add(segs, from + 1);
                self.childs.insert(j, child);
                proof {
                    assert(self.childs@ =~= old(self).childs@.update(j as int, child));
                    lemma_forest_model(self.childs);
                    let target = TreeModel {
                        name: fm[j as int].name,
                        childs: forest_insert(fm[j as int].childs, sv.skip(1)),
                    };
                    assert(child@ =~= target);
                    assert(forest_insert(fm, sv) == fm.update(j as int, target));
                    assert(forest_model(self.childs) =~= fm.update(j as int, target));
                }
            } else {
                proof {
                    lemma_find_child_from(fm, nm, 0);
                    assert(find_child(fm, nm) == -1);
                }
                let mut child = FileTree { name: segs[from].clone(), childs: Vec::new() };
                proof {
                    assert(forest_model(child.childs) =~= Seq::<TreeModel>::empty());
                }
                child.add(segs, from + 1);
                self.childs.push(child);
                proof {
                    lemma_forest_model(self.childs);
                    let target = TreeModel { name: nm, childs: forest_insert(Seq::empty(), sv.skip(1)) };
                    assert(child@ =~= target);
                    assert(forest_insert(fm, sv) == fm.push(target));
                    assert(forest_model(self.childs) =~= fm.push(target));
                }
            }
        }
    }
}

/// No two trees of `f` share a name.
pub open spec fn forest_distinct(f: Seq<TreeModel>) -> bool {
    forall|i: int, j: int| 0 <= i < j < f.len() ==> f[i].name != f[j].name
}

/// Every node of every tree in `f[i..]` has children with pairwise-distinct
/// names.
pub open spec fn subtrees_wf(f: Seq<TreeModel>, i: int) -> bool
    decreases f, f.len() - i,
{
    if i < 0 || i >= f.len() {
        true
    } else {
        tree_wf(f[i]) && subtrees_wf(f, i + 1)
    }
}

/// The tree's invariant: at every level, sibling names are pairwise
/// distinct.
pub open spec fn tree_wf(t: TreeModel) -> bool
    decreases t, 0int,
{
    forest_distinct(t.childs) && subtrees_wf(t.childs, 0)
}

/// The forest's invariant: root names pairwise distinct, every tree well
/// formed.
pub open spec fn forest_wf(f: Seq<TreeModel>) -> bool {
    forest_distinct(f) && subtrees_wf(f, 0)
}

proof fn lemma_subtrees_wf_index(f: Seq<TreeModel>, i: int, k: int)
    requires
        subtrees_wf(f, i),
        0 <= i <= k < f.len(),
    ensures
        tree_wf(f[k]),
    decreases k - i,
{
    if i < k {
        lemma_subtrees_wf_index(f, i + 1, k);
    }
}

proof fn lemma_subtrees_wf_update(f: Seq<TreeModel>, i: int, j: int, t: TreeModel)
    requires
        subtrees_wf(f, i),
        tree_wf(t),
        0 <= i <= f.len(),
        0 <= j < f.len(),
    ensures
        subtrees_wf(f.update(j, t), i),
    decreases f.len() - i,
{
    if i < f.len() {
        lemma_subtrees_wf_update(f, i + 1, j, t);
        if i != j {
            assert(f.update(j, t)[i] == f[i]);
        }
    }
}

proof fn lemma_subtrees_wf_push(f: Seq<TreeModel>, i: int, t: TreeModel)
    requires
        subtrees_wf(f, i),
        tree_wf(t),
        0 <= i <= f.len(),
    ensures
        subtrees_wf(f.push(t), i),
    decreases f.len() - i,
{
    if i < f.len() {
        assert(f.push(t)[i] == f[i]);
        lemma_subtrees_wf_push(f, i + 1, t);
    } else {
        assert(f.push(t)[i] == t);
        assert(subtrees_wf(f.push(t), i + 1));
    }
}

/// Inserting a record keeps the invariant: no insertion ever gives one node
/// two children with the same name.
pub proof fn lemma_insert_preserves_wf(f: Seq<TreeModel>, segs: Seq<Seq<char>>)
    requires
        forest_wf(f),
    ensures
        forest_wf(forest_insert(f, segs)),
    decreases segs.len(),
{
    if segs.len() > 0 {
        let nm = segs[0];
        let j = find_child(f, nm);
        let rest = segs.skip(1);
        lemma_find_child_from(f, nm, 0);
        if 0 <= j < f.len() {
            lemma_subtrees_wf_index(f, 0, j);
            lemma_insert_preserves_wf(f[j].childs, rest);
            let t = TreeModel { name: f[j].name, childs: forest_insert(f[j].childs, rest) };
            assert(tree_wf(t));
            lemma_subtrees_wf_update(f, 0, j, t);
            assert(forest_distinct(f.update(j, t))) by {
                assert(forall|k: int|
                    0 <= k < f.len() ==> (#[trigger] f.update(j, t)[k]).name == f[k].name);
            }
        } else {
            assert(forest_wf(Seq::<TreeModel>::empty()));
            lemma_insert_preserves_wf(Seq::empty(), rest);
            let t = TreeModel { name: nm, childs: forest_insert(Seq::empty(), rest) };
            assert(tree_wf(t));
            lemma_subtrees_wf_push(f, 0, t);
            assert(forest_distinct(f.push(t))) by {
                assert(forall|k: int| 0 <= k < f.len() ==> (#[trigger] f.push(t)[k]) == f[k]);
                assert(f.push(t)[f.len() as int].name == nm);
            }
        }
    }
}

proof fn lemma_build_from_wf(f: Seq<TreeModel>, records: Seq<Seq<char>>, i: int)
    requires
        forest_wf(f),
        0 <= i <= records.len(),
    ensures
        forest_wf(build_forest_from(f, records, i)),
    decreases records.len() - i,
{
    if i < records.len() {
        lemma_insert_preserves_wf(f, segments_of(records[i]));
        lemma_build_from_wf(forest_insert(f, segments_of(records[i])), records, i + 1);
    }
}

/// Every built forest satisfies the invariant: whatever the records, no node
/// ends up with two children of the same name.
pub proof fn lemma_build_forest_wf(records: Seq<Seq<char>>)
    ensures
        forest_wf(build_forest(records)),
{
    assert(forest_wf(Seq::<TreeModel>::empty()));
    lemma_build_from_wf(Seq::empty(), records, 0);
}

proof fn lemma_find_child_from_update(f: Seq<TreeModel>, j: int, t: TreeModel, name: Seq<char>, i: int)
    requires
        0 <= j < f.len(),
        t.name == f[j].name,
        0 <= i <= f.len(),
    ensures
        find_child_from(f.update(j, t), name, i) == find_child_from(f, name, i),
    decreases f.len() - i,
{
    if i < f.len() {
        assert(f.update(j, t)[i].name == f[i].name);
        if f[i].name != name {
            lemma_find_child_from_update(f, j, t, name, i + 1);
        }
    }
}

proof fn lemma_find_child_from_push(f: Seq<TreeModel>, t: TreeModel, name: Seq<char>, i: int)
    requires
        0 <= i <= f.len(),
        find_child_from(f, name, i) == -1,
        t.name == name,
    ensures
        find_child_from(f.push(t), name, i) == f.len(),
    decreases f.len() - i,
{
    if i < f.len() {
        assert(f.push(t)[i] == f[i]);
        lemma_find_child_from_push(f, t, name, i + 1);
    } else {
        assert(f.push(t)[i].name == name);
    }
}

/// Re-inserting a record is idempotent: inserting the same decomposed record
/// twice leaves the forest exactly as after inserting it once, so no
/// duplicate node ever appears.
pub proof fn lemma_insert_twice(f: Seq<TreeModel>, segs: Seq<Seq<char>>)
    ensures
        forest_insert(forest_insert(f, segs), segs) == forest_insert(f, segs),
    decreases segs.len(),
{
    if segs.len() > 0 {
        let nm = segs[0];
        let j = find_child(f, nm);
        lemma_find_child_from(f, nm, 0);
        if 0 <= j < f.len() {
            let t1 = TreeModel { name: f[j].name, childs: forest_insert(f[j].childs, segs.skip(1)) };
            let f1 = f.update(j, t1);
            lemma_find_child_from_update(f, j, t1, nm, 0);
            assert(find_child(f1, nm) == j);
            lemma_insert_twice(f[j].childs, segs.skip(1));
            let t2 = TreeModel {
                name: f1[j].name,
                childs: forest_insert(f1[j].childs, segs.skip(1)),
            };
            assert(t2 =~= t1);
            assert(forest_insert(f1, segs) == f1.update(j, t2));
            assert(f1.update(j, t1) =~= f1);
        } else {
            let t0 = TreeModel { name: nm, childs: forest_insert(Seq::empty(), segs.skip(1)) };
            let f1 = f.push(t0);
            lemma_find_child_from_push(f, t0, nm, 0);
            assert(find_child(f1, nm) == f.len());
            lemma_insert_twice(Seq::empty(), segs.skip(1));
            let t2 = TreeModel {
                name: f1[f.len() as int].name,
                childs: forest_insert(f1[f.len() as int].childs, segs.skip(1)),
            };
            assert(t2 =~= t0);
            assert(forest_insert(f1, segs) == f1.update(f.len() as int, t2));
            assert(f1.update(f.len() as int, t0) =~= f1);
        }
    }
}

proof fn lemma_build_forest_from_push(f: Seq<TreeModel>, records: Seq<Seq<char>>, r: Seq<char>, i: int)
    requires
        0 <= i <= records.len(),
    ensures
        build_forest_from(f, records.push(r), i) == forest_insert(
            build_forest_from(f, records, i),
            segments_of(r),
        ),
    decreases records.len() - i,
{
    if i < records.len() {
        assert(records.push(r)[i] == records[i]);
        lemma_build_forest_from_push(forest_insert(f, segments_of(records[i])), records, r, i + 1);
    } else {
        assert(records.push(r)[i] == r);
        assert(build_forest_from(f, records.push(r), i) == build_forest_from(
            forest_insert(f, segments_of(r)),
            records.push(r),
            i + 1,
        ));
        assert(build_forest_from(forest_insert(f, segments_of(r)), records.push(r), i + 1)
            == forest_insert(f, segments_of(r)));
        assert(build_forest_from(f, records, i) == f);
    }
}

/// A record given twice in a row builds the same forest as that record given
/// once: the duplicate changes nothing.
pub proof fn lemma_build_duplicate_last(records: Seq<Seq<char>>, r: Seq<char>)
    ensures
        build_forest(records.push(r).push(r)) == build_forest(records.push(r)),
{
    lemma_build_forest_from_push(Seq::empty(), records.push(r), r, 0);
    lemma_build_forest_from_push(Seq::empty(), records, r, 0);
    lemma_insert_twice(build_forest(records), segments_of(r));
}

/// Builds the forest for an ordered sequence of path records: each record is
/// split into segments and inserted, merging shared prefixes; roots appear in
/// first-seen order.
pub fn make_trees(records: &Vec<String>) -> (forest: Vec<FileTree>)
    ensures
        forest_model(forest) == build_forest(string_views(records@)),
        forest_wf(forest_model(forest)),
{
    proof {
        lemma_build_forest_wf(string_views(records@));
    }
    let mut pseudo_root = FileTree { name: String::new(), childs: Vec::new() };
    proof {
        assert(forest_model(pseudo_root.childs) =~= Seq::<TreeModel>::empty());
    }
    let ghost rv = string_views(records@);
    let n = records.len();
    let mut i: usize = 0;
    while i < n
        invariant
            n == records@.len(),
            i <= n,
            rv == string_views(records@),
            build_forest_from(forest_model(pseudo_root.childs), rv, i as int) == build_forest(rv),
        decreases n - i,
    {
        let segs = split_record(records[i].as_str());
        let ghost before = forest_model(pseudo_root.childs);
        pseudo_root.add(&segs, 0);
        proof {
            assert(string_views(segs@).skip(0) =~= string_views(segs@));
            assert(rv[i as int] == records@[i as int]@);
            assert(forest_model(pseudo_root.childs) == forest_insert(
                before,
                segments_of(rv[i as int]),
            ));
        }
        i += 1;
    }
    pseudo_root.childs
}

} // verus!
