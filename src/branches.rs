use vstd::prelude::*;

use crate::node::{Node, NodeView, PathView, view_path, views};

verus! {

/// The children collected so far for one directory path.
pub struct Branch {
    pub path: Vec<String>,
    pub children: Vec<Node>,
}

/// Mapping from directory path to the children collected for it, one branch per path.
///
/// Branches sit in a vector and are found by comparing paths one by one, so each lookup costs
/// time linear in the number of branches, and collecting a stream is quadratic in the number of
/// directories it names.
pub struct Branches {
    pub branches: Vec<Branch>,
}

impl Branches {
    pub open spec fn key(self, i: int) -> PathView {
        view_path(self.branches@[i].path@)
    }

    /// Each path has at most one branch.
    pub open spec fn wf(self) -> bool {
        forall|i: int, j: int|
            0 <= i < self.branches@.len() && 0 <= j < self.branches@.len() && i != j ==> self.key(i)
                != self.key(j)
    }

    pub open spec fn has(self, p: PathView) -> bool {
        exists|i: int| 0 <= i < self.branches@.len() && self.key(i) == p
    }

    pub open spec fn index_of(self, p: PathView) -> int {
        choose|i: int| 0 <= i < self.branches@.len() && self.key(i) == p
    }

    pub open spec fn view(self) -> Map<PathView, Seq<NodeView>> {
        Map::new(|p: PathView| self.has(p), |p: PathView| views(self.branches@[self.index_of(p)].children@))
    }

    pub open spec fn len(self) -> nat {
        self.branches@.len()
    }

    /// An empty buffer.
    pub fn new() -> (r: Branches)
        ensures
            r.wf(),
            r.view() == Map::<PathView, Seq<NodeView>>::empty(),
    {
        let r = Branches { branches: Vec::new() };
        assert(r.view() =~= Map::<PathView, Seq<NodeView>>::empty());
        r
    }

    /// The position of the branch for `p`, if there is one.
    fn find(&self, p: &Vec<String>) -> (r: Option<usize>)
        requires
            self.wf(),
        ensures
            r is Some ==> r->0 < self.branches@.len() && self.key(r->0 as int) == view_path(p@),
            r is None ==> !self.has(view_path(p@)),
    {
        let mut i: usize = 0;
        while i < self.branches.len()
            invariant
                0 <= i <= self.branches@.len(),
                forall|k: int| 0 <= k < i ==> self.key(k) != view_path(p@),
            decreases self.branches@.len() - i,
        {
            if same_path(&self.branches[i].path, p) {
                return Some(i);
            }
            i = i + 1;
        }
        None
    }

    /// Makes sure a branch exists for `p`, empty if it is new.
    pub fn ensure(&mut self, p: &Vec<String>)
        requires
            old(self).wf(),
        ensures
            final(self).wf(),
            final(self).view() == (if old(self).view().contains_key(view_path(p@)) {
                old(self).view()
            } else {
                old(self).view().insert(view_path(p@), Seq::empty())
            }),
    {
        match self.find(p) {
            Some(_) => {
                assert(self.view().contains_key(view_path(p@)));
            },
            None => {
                let ghost before = *self;
                let path = clone_path(p);
                let b = Branch { path, children: Vec::new() };
                self.branches.push(b);
                proof {
                    let n = before.branches@.len() as int;
                    assert(self.key(n) == view_path(p@));
                    assert forall|i: int| 0 <= i < n implies #[trigger] self.key(i) == before.key(i) by {
                        assert(self.branches@[i] == before.branches@[i]);
                    }
                    assert(views(Seq::<Node>::empty()) =~= Seq::<NodeView>::empty());
                    assert forall|q: PathView| #[trigger] self.has(q) == (before.has(q) || q == view_path(p@)) by {
                        if before.has(q) {
                            let i = before.index_of(q);
                            assert(self.key(i) == q);
                        }
                    }
                    assert forall|q: PathView| #[trigger] self.has(q) implies self.view()[q] == before.view().insert(view_path(p@), Seq::empty())[q] by {
                        let i = self.index_of(q);
                        if q == view_path(p@) {
                            assert(i == n);
                        } else {
                            let j = before.index_of(q);
                            assert(self.key(j) == q);
                            assert(i == j);
                        }
                    }
                    assert(self.view() =~= before.view().insert(view_path(p@), Seq::empty()));
                }
            },
        }
    }

    /// Appends `node` to the branch for `p`, creating the branch on first use.
    pub fn append(&mut self, p: Vec<String>, node: Node)
        requires
            old(self).wf(),
        ensures
            final(self).wf(),
            final(self).view() == old(self).view().insert(
                view_path(p@),
                (if old(self).view().contains_key(view_path(p@)) {
                    old(self).view()[view_path(p@)]
                } else {
                    Seq::empty()
                }).push(node@),
            ),
    {
        let ghost before = *self;
        let ghost key = view_path(p@);
        let ghost new_val = (if before.view().contains_key(key) {
            before.view()[key]
        } else {
            Seq::empty()
        }).push(node@);
        match self.find(&p) {
            Some(i) => {
                let mut b = self.branches.swap_remove(i);
                proof {
                    assert(views(b.children@) == before.view()[key]);
                }
                b.children.push(node);
                proof {
                    assert(views(b.children@) =~= new_val);
                }
                self.branches.push(b);
                proof {
                    let n = before.branches@.len() as int;
                    assert(self.branches@ =~= before.branches@.update(i as int, before.branches@[n - 1]).update(n - 1, b));
                    assert forall|k: int| 0 <= k < n implies #[trigger] self.key(k) == before.key(swapped(k, i as int, n - 1)) by {}
                    assert forall|k1: int, k2: int| 0 <= k1 < n && 0 <= k2 < n && k1 != k2 implies self.key(k1) != self.key(k2) by {
                        assert(self.key(k1) == before.key(swapped(k1, i as int, n - 1)));
                        assert(self.key(k2) == before.key(swapped(k2, i as int, n - 1)));
                    }
                    assert forall|q: PathView| #[trigger] self.has(q) == before.has(q) by {
                        if before.has(q) {
                            let j = before.index_of(q);
                            assert(self.key(swapped(j, i as int, n - 1)) == q);
                        }
                        if self.has(q) {
                            let j = self.index_of(q);
                            assert(before.key(swapped(j, i as int, n - 1)) == q);
                        }
                    }
                    assert forall|q: PathView| #[trigger] self.has(q) implies self.view()[q] == before.view().insert(key, new_val)[q] by {
                        let j = self.index_of(q);
                        let jb = before.index_of(q);
                        assert(before.key(swapped(j, i as int, n - 1)) == q);
                        assert(jb == swapped(j, i as int, n - 1));
                        if q == key {
                            assert(jb == i as int);
                            assert(j == n - 1);
                        }
                    }
                    assert(self.view() =~= before.view().insert(key, new_val));
                }
            },
            None => {
                let mut children = Vec::new();
                children.push(node);
                let b = Branch { path: p, children };
                self.branches.push(b);
                proof {
                    let n = before.branches@.len() as int;
                    assert(self.key(n) == key);
                    assert(views(b.children@) =~= new_val);
                    assert forall|i: int| 0 <= i < n implies #[trigger] self.key(i) == before.key(i) by {
                        assert(self.branches@[i] == before.branches@[i]);
                    }
                    assert forall|q: PathView| #[trigger] self.has(q) == (before.has(q) || q == key) by {
                        if before.has(q) {
                            let i = before.index_of(q);
                            assert(self.key(i) == q);
                        }
                    }
                    assert forall|q: PathView| #[trigger] self.has(q) implies self.view()[q] == before.view().insert(key, new_val)[q] by {
                        let i = self.index_of(q);
                        if q == key {
                            assert(i == n);
                        } else {
                            let j = before.index_of(q);
                            assert(self.key(j) == q);
                            assert(i == j);
                        }
                    }
                    assert(self.view() =~= before.view().insert(key, new_val));
                }
            },
        }
    }

    /// Removes the branch for `p` and hands back its children; none when there was no branch.
    pub fn take(&mut self, p: &Vec<String>) -> (r: Vec<Node>)
        requires
            old(self).wf(),
        ensures
            final(self).wf(),
            final(self).view() == old(self).view().remove(view_path(p@)),
            views(r@) == (if old(self).view().contains_key(view_path(p@)) {
                old(self).view()[view_path(p@)]
            } else {
                Seq::empty()
            }),
            final(self).len() + (if old(self).view().contains_key(view_path(p@)) {
                1int
            } else {
                0int
            }) == old(self).len(),
    {
        let ghost before = *self;
        let ghost key = view_path(p@);
        match self.find(p) {
            Some(i) => {
                let b = self.branches.swap_remove(i);
                proof {
                    let n = before.branches@.len() as int;
                    assert(before.index_of(key) == i as int);
                    assert forall|k: int| 0 <= k < n - 1 implies #[trigger] self.key(k) == before.key(swapped(k, i as int, n - 1)) by {}
                    assert forall|k1: int, k2: int| 0 <= k1 < n - 1 && 0 <= k2 < n - 1 && k1 != k2 implies self.key(k1) != self.key(k2) by {
                        assert(self.key(k1) == before.key(swapped(k1, i as int, n - 1)));
                        assert(self.key(k2) == before.key(swapped(k2, i as int, n - 1)));
                    }
                    assert forall|q: PathView| #[trigger] self.has(q) == (before.has(q) && q != key) by {
                        if before.has(q) && q != key {
                            let j = before.index_of(q);
                            assert(self.key(swapped(j, i as int, n - 1)) == q);
                        }
                        if self.has(q) {
                            let j = self.index_of(q);
                            assert(before.key(swapped(j, i as int, n - 1)) == q);
                        }
                    }
                    assert forall|q: PathView| #[trigger] self.has(q) implies self.view()[q] == before.view()[q] by {
                        let j = self.index_of(q);
                        let jb = before.index_of(q);
                        assert(before.key(swapped(j, i as int, n - 1)) == q);
                        assert(jb == swapped(j, i as int, n - 1));
                    }
                    assert(self.view() =~= before.view().remove(key));
                }
                b.children
            },
            None => {
                assert(self.view() =~= before.view().remove(key));
                let r = Vec::new();
                assert(views(r@) =~= Seq::<NodeView>::empty());
                r
            },
        }
    }
}

/// Position `k` with positions `i` and `j` exchanged.
pub open spec fn swapped(k: int, i: int, j: int) -> int {
    if k == i {
        j
    } else if k == j {
        i
    } else {
        k
    }
}

/// Whether two paths have the same components.
pub fn same_path(a: &Vec<String>, b: &Vec<String>) -> (r: bool)
    ensures
        r == (view_path(a@) == view_path(b@)),
{
    if a.len() != b.len() {
        assert(view_path(a@).len() != view_path(b@).len());
        return false;
    }
    let mut i: usize = 0;
    while i < a.len()
        invariant
            a.len() == b.len(),
            0 <= i <= a.len(),
            forall|k: int| 0 <= k < i ==> a@[k]@ == b@[k]@,
        decreases a.len() - i,
    {
        if a[i] != b[i] {
            assert(view_path(a@)[i as int] != view_path(b@)[i as int]);
            return false;
        }
        i = i + 1;
    }
    assert(view_path(a@) =~= view_path(b@));
    true
}

/// A copy of a path.
pub fn clone_path(p: &Vec<String>) -> (r: Vec<String>)
    ensures
        view_path(r@) == view_path(p@),
{
    let mut r: Vec<String> = Vec::new();
    let mut i: usize = 0;
    while i < p.len()
        invariant
            0 <= i <= p.len(),
            r@.len() == i,
            forall|k: int| 0 <= k < i ==> r@[k]@ == p@[k]@,
        decreases p.len() - i,
    {
        r.push(p[i].clone());
        i = i + 1;
    }
    assert(view_path(r@) =~= view_path(p@));
    r
}

/// The path of the directory that holds `p`: all but its last component. None for an empty path.
pub fn parent_of(p: &Vec<String>) -> (r: Option<Vec<String>>)
    ensures
        r is None <==> p@.len() == 0,
        r is Some ==> view_path(r->0@) == view_path(p@).drop_last(),
{
    if p.len() == 0 {
        return None;
    }
    let mut r: Vec<String> = Vec::new();
    let mut i: usize = 0;
    while i + 1 < p.len()
        invariant
            p@.len() > 0,
            0 <= i <= p.len() - 1,
            r@.len() == i,
            forall|k: int| 0 <= k < i ==> r@[k]@ == p@[k]@,
        decreases p.len() - i,
    {
        r.push(p[i].clone());
        i = i + 1;
    }
    assert(view_path(r@) =~= view_path(p@).drop_last());
    Some(r)
}

} // verus!
