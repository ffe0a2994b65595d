use vstd::prelude::*;

use crate::node::{FileKind, Node, NodeView, lemma_view_children, reversed, views};

verus! {

/// Whether an entry survives pruning among its siblings: anything but a directory, or a
/// directory that still has children.
pub open spec fn survives(c: NodeView) -> bool {
    !c.is_dir() || c.children.len() > 0
}

/// The entries of `s` that survive, in order.
pub open spec fn survivors(s: Seq<NodeView>) -> Seq<NodeView>
    decreases s.len(),
{
    if s.len() == 0 {
        s
    } else if survives(s.last()) {
        survivors(s.drop_last()).push(s.last())
    } else {
        survivors(s.drop_last())
    }
}

/// `n` with every directory below it pruned first, then the directories left without children
/// removed. Entries that are not directories are kept as they are.
pub open spec fn pruned(n: NodeView) -> NodeView
    decreases n, 1nat,
{
    NodeView { children: survivors(pruned_kids(n)), ..n }
}

/// The children of `n`, each directory among them pruned.
pub open spec fn pruned_kids(n: NodeView) -> Seq<NodeView>
    decreases n, 0nat,
{
    Seq::new(
        n.children.len(),
        |i: int|
            if 0 <= i < n.children.len() && n.children[i].is_dir() {
                pruned(n.children[i])
            } else {
                n.children[i]
            },
    )
}

impl Node {
    /// Whether the node has children.
    pub fn has_children(&self) -> (r: bool)
        ensures
            r == (self@.children.len() > 0),
    {
        proof {
            lemma_view_children(*self);
        }
        self.children.len() > 0
    }

    /// Recursively removes the directories below this node that end up with no children.
    pub fn prune_directories(&mut self)
        ensures
            final(self)@ == pruned(old(self)@),
        decreases old(self)@,
    {
        let ghost v0 = self@;
        proof {
            lemma_view_children(*self);
        }
        let mut kids: Vec<Node> = Vec::new();
        core::mem::swap(&mut self.children, &mut kids);
        let ghost k0 = views(kids@);
        proof {
            lemma_view_children(*self);
            assert(views(self.children@) =~= Seq::<NodeView>::empty());
            assert(self@ =~= NodeView { children: Seq::empty(), ..v0 });
        }
        let ghost n = k0.len();
        let ghost mapped = Seq::new(
            n,
            |i: int|
                if 0 <= i < n && k0[i].is_dir() {
                    pruned(k0[i])
                } else {
                    k0[i]
                },
        );
        let mut pending = reversed(kids);
        let mut out: Vec<Node> = Vec::new();
        proof {
            assert(mapped.subrange(0, 0) =~= Seq::<NodeView>::empty());
            assert(views(out@) =~= Seq::<NodeView>::empty());
            assert(views(pending@).reverse() =~= k0.subrange(0, n as int));
        }
        while pending.len() > 0
            invariant
                n == k0.len(),
                k0 == v0.children,
                v0 == old(self)@,
                self@ == (NodeView { children: Seq::empty(), ..v0 }),
                pending.len() <= n,
                views(pending@).reverse() == k0.subrange(n - pending.len(), n as int),
                views(out@) == survivors(mapped.subrange(0, n - pending.len())),
                mapped == Seq::new(
                    n,
                    |i: int|
                        if 0 <= i < n && k0[i].is_dir() {
                            pruned(k0[i])
                        } else {
                            k0[i]
                        },
                ),
            decreases pending.len(),
        {
            let ghost i = n - pending.len();
            let ghost before = pending@;
            let mut c = pending.pop().unwrap();
            proof {
                assert(views(before) =~= views(pending@).push(c@));
                assert(views(before).reverse() =~= seq![c@] + views(pending@).reverse());
                assert(k0.subrange(i, n as int)[0] == k0[i]);
                assert(c@ == k0[i]);
                assert(views(pending@).reverse() =~= (seq![c@] + views(pending@).reverse()).drop_first());
                assert(k0.subrange(i + 1, n as int) =~= k0.subrange(i, n as int).drop_first());
                let pre = mapped.subrange(0, i + 1);
                assert(pre.drop_last() =~= mapped.subrange(0, i));
                assert(pre.last() == mapped[i]);
            }
            let is_dir = matches!(c.file_type, Some(FileKind::Dir));
            if is_dir {
                proof {
                    assert(decreases_to!(v0 => v0.children));
                    assert(decreases_to!(v0.children => v0.children[i]));
                }
                c.prune_directories();
                if c.has_children() {
                    proof {
                        assert(views(out@.push(c)) =~= views(out@).push(c@));
                    }
                    out.push(c);
                }
            } else {
                proof {
                    assert(views(out@.push(c)) =~= views(out@).push(c@));
                }
                out.push(c);
            }
        }
        let ghost before_assign = *self;
        self.children = out;
        proof {
            assert(mapped.subrange(0, n as int) =~= mapped);
            lemma_view_children(*self);
            assert forall|i: int| 0 <= i < n implies mapped[i] == #[trigger] pruned_kids(v0)[i] by {}
            assert(mapped =~= pruned_kids(v0));
            assert(self@ =~= (NodeView { children: views(self.children@), ..before_assign@ }));
            assert(self@ =~= pruned(v0));
        }
    }
}

} // verus!
