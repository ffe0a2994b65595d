use vstd::prelude::*;

use crate::branches::{Branches, parent_of};
use crate::node::{FileKind, Node, NodeView, PathView, reversed, view_path, views};

verus! {

/// Why an entry stream cannot become a tree.
#[derive(Clone, Copy, Debug, PartialEq, Eq, Structural)]
pub enum TreeError {
    /// The stream ended without an entry at depth zero.
    MissingRoot,
    /// An entry below the root has a path with no parent component.
    ExpectedParent,
}

/// The entries of `s` that sit directly inside `p`, in arrival order.
pub open spec fn children_in(s: Seq<NodeView>, p: PathView) -> Seq<NodeView>
    decreases s.len(),
{
    if s.len() == 0 {
        s
    } else if s.last().is_child_of(p) {
        children_in(s.drop_last(), p).push(s.last())
    } else {
        children_in(s.drop_last(), p)
    }
}

/// Whether entry `e` gives rise to a branch for path `p`: as the parent it lands in, or as a
/// directory that will receive children.
pub open spec fn opens_branch(e: NodeView, p: PathView) -> bool {
    e.is_child_of(p) || (e.is_dir() && e.path == p)
}

/// The branch buffer after the stream `s`: a branch for each path that some entry opens, holding
/// the entries directly inside that path in arrival order.
pub open spec fn buffer_of(s: Seq<NodeView>) -> Map<PathView, Seq<NodeView>> {
    Map::new(
        |p: PathView| exists|i: int| 0 <= i < s.len() && opens_branch(s[i], p),
        |p: PathView| children_in(s, p),
    )
}

/// The last entry of `s` at depth zero.
pub open spec fn root_of(s: Seq<NodeView>) -> Option<NodeView>
    decreases s.len(),
{
    if s.len() == 0 {
        None
    } else if s.last().depth == 0 {
        Some(s.last())
    } else {
        root_of(s.drop_last())
    }
}

/// An entry below the root whose path has no parent component.
pub open spec fn is_orphan(e: NodeView) -> bool {
    e.depth != 0 && e.path.len() == 0
}

pub open spec fn has_orphan(s: Seq<NodeView>) -> bool {
    exists|i: int| 0 <= i < s.len() && is_orphan(s[i])
}

pub open spec fn view_root(r: Option<Node>) -> Option<NodeView> {
    match r {
        Some(n) => Some(n@),
        None => None,
    }
}

proof fn lemma_children_in_absent(s: Seq<NodeView>, p: PathView)
    requires
        forall|i: int| 0 <= i < s.len() ==> !(#[trigger] s[i]).is_child_of(p),
    ensures
        children_in(s, p) == Seq::<NodeView>::empty(),
    decreases s.len(),
{
    if s.len() > 0 {
        assert forall|i: int| 0 <= i < s.drop_last().len() implies !(#[trigger] s.drop_last()[i]).is_child_of(p) by {
            assert(s.drop_last()[i] == s[i]);
        }
        lemma_children_in_absent(s.drop_last(), p);
        assert(!s[s.len() - 1].is_child_of(p));
    }
}

pub proof fn lemma_root_absent(s: Seq<NodeView>)
    ensures
        root_of(s) is None <==> forall|i: int| 0 <= i < s.len() ==> (#[trigger] s[i]).depth != 0,
        root_of(s) is Some ==> root_of(s)->0.depth == 0 && s.contains(root_of(s)->0),
    decreases s.len(),
{
    if s.len() > 0 {
        let t = s.drop_last();
        lemma_root_absent(t);
        assert forall|i: int| 0 <= i < t.len() implies #[trigger] t[i] == s[i] by {}
        assert(s.last() == s[s.len() - 1]);
        if s.last().depth != 0 && root_of(t) is None {
            assert forall|i: int| 0 <= i < s.len() implies (#[trigger] s[i]).depth != 0 by {
                if i < t.len() {
                    assert(t[i] == s[i]);
                }
            }
        }
        if root_of(s) is Some && s.last().depth != 0 {
            let k = choose|k: int| 0 <= k < t.len() && t[k] == root_of(t)->0;
            assert(s[k] == root_of(s)->0);
        }
        if s.last().depth == 0 {
            assert(s[s.len() - 1] == s.last());
        }
    }
}

/// The single consumer of an entry stream: sets the root aside and collects every other entry
/// under the path of its parent.
pub struct Aggregator {
    root: Option<Node>,
    branches: Branches,
    received: Ghost<Seq<NodeView>>,
}

impl Aggregator {
    /// The entries accepted so far, in arrival order.
    pub closed spec fn received(&self) -> Seq<NodeView> {
        self.received@
    }

    pub closed spec fn inv(&self) -> bool {
        &&& self.branches.wf()
        &&& self.branches.view() == buffer_of(self.received@)
        &&& view_root(self.root) == root_of(self.received@)
        &&& !has_orphan(self.received@)
    }

    /// An aggregator that has received nothing.
    pub fn new() -> (r: Aggregator)
        ensures
            r.inv(),
            r.received() == Seq::<NodeView>::empty(),
            !has_orphan(r.received()),
    {
        let r = Aggregator { root: None, branches: Branches::new(), received: Ghost(Seq::empty()) };
        assert(buffer_of(Seq::<NodeView>::empty()) =~= Map::<PathView, Seq<NodeView>>::empty());
        r
    }

    /// Receives one entry. An entry below the root whose path has no parent is refused with
    /// `ExpectedParent`, and nothing changes.
    pub fn push(&mut self, node: Node) -> (r: Result<(), TreeError>)
        requires
            old(self).inv(),
        ensures
            final(self).inv(),
            !has_orphan(final(self).received()),
            is_orphan(node@) ==> r == Err::<(), TreeError>(TreeError::ExpectedParent) && final(self).received()
                == old(self).received(),
            !is_orphan(node@) ==> r is Ok && final(self).received() == old(self).received().push(node@),
    {
        if node.depth != 0 && node.path.len() == 0 {
            assert(view_path(node.path@).len() == 0);
            return Err(TreeError::ExpectedParent);
        }
        let ghost s = self.received@;
        let ghost e = node@;
        let ghost t = s.push(e);
        let ghost m0 = self.branches.view();
        let is_dir = matches!(node.file_type, Some(FileKind::Dir));
        if is_dir {
            self.branches.ensure(&node.path);
        }
        let ghost m1 = self.branches.view();
        proof {
            assert(t.drop_last() =~= s);
            assert(t.last() == e);
            assert forall|i: int| 0 <= i < s.len() implies #[trigger] t[i] == s[i] by {}
            assert(t[s.len() as int] == e);
            assert forall|p: PathView| #[trigger] children_in(t, p) == (if e.is_child_of(p) {
                children_in(s, p).push(e)
            } else {
                children_in(s, p)
            }) by {
                assert(t.drop_last() =~= s);
            }
            assert forall|p: PathView| !m0.contains_key(p) implies #[trigger] children_in(s, p) == Seq::<NodeView>::empty() by {
                assert forall|i: int| 0 <= i < s.len() implies !(#[trigger] s[i]).is_child_of(p) by {
                    if s[i].is_child_of(p) {
                        assert(opens_branch(s[i], p));
                    }
                }
                lemma_children_in_absent(s, p);
            }
            assert(!has_orphan(t)) by {
                assert forall|i: int| 0 <= i < t.len() implies !is_orphan(#[trigger] t[i]) by {
                    if i < s.len() {
                        assert(t[i] == s[i]);
                    }
                }
            }
        }
        if node.depth == 0 {
            self.root = Some(node);
            proof {
                assert(t.drop_last() =~= s);
                assert forall|p: PathView| #[trigger] m1.contains_key(p) == buffer_of(t).contains_key(p) by {
                    if buffer_of(t).contains_key(p) {
                        let i = choose|i: int| 0 <= i < t.len() && opens_branch(t[i], p);
                        if i < s.len() {
                            assert(opens_branch(s[i], p));
                        }
                    }
                    if m0.contains_key(p) {
                        let i = choose|i: int| 0 <= i < s.len() && opens_branch(s[i], p);
                        assert(opens_branch(t[i], p));
                    }
                    if is_dir && p == e.path {
                        assert(opens_branch(t[s.len() as int], p));
                    }
                }
                assert(m1 =~= buffer_of(t));
            }
        } else {
            let parent = parent_of(&node.path).unwrap();
            let ghost pp = view_path(parent@);
            self.branches.append(parent, node);
            proof {
                assert(e.is_child_of(pp));
                assert forall|p: PathView| #[trigger] self.branches.view().contains_key(p) == buffer_of(t).contains_key(p) by {
                    if buffer_of(t).contains_key(p) {
                        let i = choose|i: int| 0 <= i < t.len() && opens_branch(t[i], p);
                        if i < s.len() {
                            assert(opens_branch(s[i], p));
                        }
                    }
                    if m0.contains_key(p) {
                        let i = choose|i: int| 0 <= i < s.len() && opens_branch(s[i], p);
                        assert(opens_branch(t[i], p));
                    }
                    if p == pp || (is_dir && p == e.path) {
                        assert(opens_branch(t[s.len() as int], p));
                    }
                }
                assert forall|p: PathView| #[trigger] self.branches.view().contains_key(p) implies self.branches.view()[p] == children_in(t, p) by {
                    if p == pp {
                        assert(e.path.len() == pp.len() + 1);
                    } else if is_dir && p == e.path && !m0.contains_key(p) {
                        assert(!e.is_child_of(p));
                    }
                }
                assert(self.branches.view() =~= buffer_of(t));
            }
        }
        self.received = Ghost(t);
        Ok(())
    }

    /// Hands off the root and the branch buffer once the stream has ended; `MissingRoot` when no
    /// entry at depth zero came.
    pub fn finish(self) -> (r: Result<(Node, Branches), TreeError>)
        requires
            self.inv(),
        ensures
            root_of(self.received()) is None <==> r is Err,
            r is Err ==> r == Err::<(Node, Branches), TreeError>(TreeError::MissingRoot),
            r matches Ok((root, b)) ==> root@ == root_of(self.received())->0 && b.wf() && b.view() == buffer_of(
                self.received(),
            ),
    {
        match self.root {
            Some(root) => Ok((root, self.branches)),
            None => Err(TreeError::MissingRoot),
        }
    }
}

/// Feeds every entry of `entries` to a fresh aggregator, in order, and finishes it.
pub fn aggregate(entries: Vec<Node>) -> (r: Result<(Node, Branches), TreeError>)
    ensures
        has_orphan(views(entries@)) <==> r == Err::<(Node, Branches), TreeError>(TreeError::ExpectedParent),
        !has_orphan(views(entries@)) ==> ((forall|i: int| 0 <= i < entries@.len() ==> (#[trigger] entries@[i]).depth != 0)
            <==> r == Err::<(Node, Branches), TreeError>(TreeError::MissingRoot)),
        r matches Ok((root, b)) ==> root@ == root_of(views(entries@))->0 && root.depth == 0 && b.wf()
            && b.view() == buffer_of(views(entries@)),
{
    let ghost s = views(entries@);
    let mut agg = Aggregator::new();
    // Arrival order is front to back, and `pop` takes from the back: reverse first.
    let mut pending = reversed(entries);
    proof {
        assert(views(pending@).reverse() =~= s);
        assert(agg.received() + views(pending@).reverse() =~= s);
    }
    while pending.len() > 0
        invariant
            agg.inv(),
            s == views(entries@),
            !has_orphan(agg.received()),
            agg.received() + views(pending@).reverse() == s,
        decreases pending.len(),
    {
        let ghost before = pending@;
        let x = pending.pop().unwrap();
        proof {
            assert(views(before) =~= views(pending@).push(x@));
            assert(views(before).reverse() =~= seq![x@] + views(pending@).reverse());
            assert(s =~= agg.received() + (seq![x@] + views(pending@).reverse()));
        }
        let ghost xv = x@;
        let res = agg.push(x);
        proof {
            assert(is_orphan(xv) ==> res == Err::<(), TreeError>(TreeError::ExpectedParent));
        }
        match res {
            Ok(()) => {
                proof {
                    assert(agg.received() + views(pending@).reverse() =~= s);
                }
            },
            Err(e) => {
                proof {
                    let k = agg.received().len() as int;
                    assert(s[k] == x@);
                    assert(is_orphan(s[k]));
                    assert(e == TreeError::ExpectedParent);
                    assert(has_orphan(s));
                }
                let out: Result<(Node, Branches), TreeError> = Err(e);
                assert(out == Err::<(Node, Branches), TreeError>(TreeError::ExpectedParent));
                return out;
            },
        }
    }
    proof {
        assert(views(pending@).reverse() =~= Seq::<NodeView>::empty());
        assert(agg.received() =~= s);
        lemma_root_absent(s);
    }
    let r = agg.finish();
    proof {
        assert forall|i: int| 0 <= i < s.len() implies #[trigger] s[i] == entries@[i]@ by {}
        if r is Ok {
            let k = choose|k: int| 0 <= k < s.len() && s[k] == root_of(s)->0;
            assert(entries@[k]@ == s[k]);
        } else {
            assert forall|i: int| 0 <= i < entries@.len() implies (#[trigger] entries@[i]).depth != 0 by {
                assert(s[i].depth != 0);
            }
        }
    }
    r
}

} // verus!
