use vstd::prelude::*;

use crate::aggregate::{Aggregator, TreeError, aggregate, lemma_root_absent, buffer_of, children_in, has_orphan, opens_branch, root_of};
use crate::branches::Branches;
use crate::cli::Order;
use crate::node::{FileKind, Node, NodeView, PathView, lemma_view_children, reversed, views};
use crate::order::{sort_nodes, sort_spec};

verus! {

/// The sum of the sizes of `s`, absent sizes counting as zero.
pub open spec fn total_weight(s: Seq<NodeView>) -> nat
    decreases s.len(),
{
    if s.len() == 0 {
        0
    } else {
        total_weight(s.drop_last()) + s.last().weight()
    }
}

/// The size a directory gets from its children: their sum, held at `u64::MAX` at most, and no
/// size at all when the sum is zero.
pub open spec fn dir_size(kids: Seq<NodeView>) -> Option<u64> {
    let t = total_weight(kids);
    if t == 0 {
        None
    } else if t > u64::MAX {
        Some(u64::MAX)
    } else {
        Some(t as u64)
    }
}

/// Whether path `q` lies at or below path `p`.
pub open spec fn extends(q: PathView, p: PathView) -> bool {
    p.len() <= q.len() && q.subrange(0, p.len() as int) == p
}

/// Node `e` with its children taken from the buffer `buf`, directories among them assembled in
/// turn, `fuel` levels deep, children sorted. The sum of the children's sizes becomes the node's
/// size when it is above zero; otherwise the node keeps the size it came with.
pub open spec fn assembled(
    buf: Map<PathView, Seq<NodeView>>,
    e: NodeView,
    order: Order,
    dirs_first: bool,
    fuel: nat,
) -> NodeView
    decreases fuel, 0nat,
{
    let kids = if fuel > 0 && buf.contains_key(e.path) {
        assembled_each(buf, buf[e.path], order, dirs_first, (fuel - 1) as nat)
    } else {
        Seq::empty()
    };
    NodeView {
        size: if total_weight(kids) > 0 {
            dir_size(kids)
        } else {
            e.size
        },
        children: sort_spec(kids, order, dirs_first),
        ..e
    }
}

/// The paths whose branches assembling `e` takes out of `buf`: its own, and those its
/// directories take in turn.
pub open spec fn consumed(
    buf: Map<PathView, Seq<NodeView>>,
    e: NodeView,
    order: Order,
    dirs_first: bool,
    fuel: nat,
) -> Set<PathView>
    decreases fuel, 0nat,
{
    if fuel > 0 && buf.contains_key(e.path) {
        set![e.path].union(consumed_each(buf, buf[e.path], order, dirs_first, (fuel - 1) as nat))
    } else {
        set![e.path]
    }
}

/// The paths whose branches the directories among `cs` take out of `buf`.
pub open spec fn consumed_each(
    buf: Map<PathView, Seq<NodeView>>,
    cs: Seq<NodeView>,
    order: Order,
    dirs_first: bool,
    fuel: nat,
) -> Set<PathView>
    decreases fuel, cs.len(),
{
    if cs.len() == 0 {
        Set::empty()
    } else {
        let c = cs.last();
        consumed_each(buf, cs.drop_last(), order, dirs_first, fuel).union(
            if c.is_dir() {
                consumed(buf, c, order, dirs_first, fuel)
            } else {
                Set::empty()
            },
        )
    }
}

/// Each entry of `cs`, assembled when it is a directory and kept as it is otherwise.
pub open spec fn assembled_each(
    buf: Map<PathView, Seq<NodeView>>,
    cs: Seq<NodeView>,
    order: Order,
    dirs_first: bool,
    fuel: nat,
) -> Seq<NodeView>
    decreases fuel, cs.len(),
{
    if cs.len() == 0 {
        cs
    } else {
        let c = cs.last();
        assembled_each(buf, cs.drop_last(), order, dirs_first, fuel).push(
            if c.is_dir() {
                assembled(buf, c, order, dirs_first, fuel)
            } else {
                c
            },
        )
    }
}

/// Every entry of a branch sits directly inside the branch's path, and no two entries of a
/// branch share a path.
pub open spec fn buffer_well_formed(buf: Map<PathView, Seq<NodeView>>) -> bool {
    &&& forall|k: PathView, i: int|
        #![trigger buf[k][i]]
        buf.contains_key(k) && 0 <= i < buf[k].len() ==> buf[k][i].path.len() == k.len() + 1
            && extends(buf[k][i].path, k)
    &&& forall|k: PathView, i: int, j: int|
        #![trigger buf[k][i], buf[k][j]]
        buf.contains_key(k) && 0 <= i < buf[k].len() && 0 <= j < buf[k].len() && i != j
            ==> buf[k][i].path != buf[k][j].path
}

/// The branches at and below `p` are the ones `buf` holds.
pub open spec fn intact(cur: Map<PathView, Seq<NodeView>>, buf: Map<PathView, Seq<NodeView>>, p: PathView) -> bool {
    forall|q: PathView|
        #![trigger extends(q, p), cur.contains_key(q)]
        #![trigger extends(q, p), buf.contains_key(q)]
        extends(q, p) ==> (cur.contains_key(q) == buf.contains_key(q) && (cur.contains_key(q) ==> cur[q]
            == buf[q]))
}

/// No branch at or below `p` lies `fuel` or more levels below `p`.
pub open spec fn fuel_enough(buf: Map<PathView, Seq<NodeView>>, p: PathView, fuel: nat) -> bool {
    forall|q: PathView| #[trigger] buf.contains_key(q) && extends(q, p) ==> q.len() < p.len() + fuel
}

pub open spec fn ready(
    cur: Map<PathView, Seq<NodeView>>,
    buf: Map<PathView, Seq<NodeView>>,
    p: PathView,
    fuel: nat,
) -> bool {
    buffer_well_formed(buf) && intact(cur, buf, p) && fuel_enough(buf, p, fuel)
}

/// The branches outside `p` are the same in `a` and `b`.
pub open spec fn same_outside(a: Map<PathView, Seq<NodeView>>, b: Map<PathView, Seq<NodeView>>, p: PathView) -> bool {
    forall|q: PathView|
        #![trigger b.contains_key(q)]
        #![trigger a.contains_key(q)]
        !extends(q, p) ==> (b.contains_key(q) == a.contains_key(q) && (b.contains_key(q) ==> b[q] == a[q]))
}

proof fn lemma_extends_transitive(q: PathView, c: PathView, p: PathView)
    requires
        extends(q, c),
        extends(c, p),
    ensures
        extends(q, p),
{
    assert(q.subrange(0, p.len() as int) =~= q.subrange(0, c.len() as int).subrange(0, p.len() as int));
}

proof fn lemma_siblings_apart(q: PathView, a: PathView, b: PathView)
    requires
        extends(q, a),
        a.len() == b.len(),
        a != b,
    ensures
        !extends(q, b),
{
}

proof fn lemma_intact_below(
    m: Map<PathView, Seq<NodeView>>,
    cur: Map<PathView, Seq<NodeView>>,
    buf: Map<PathView, Seq<NodeView>>,
    p: PathView,
    c: PathView,
)
    requires
        intact(m, buf, p),
        cur == m.remove(p),
        extends(c, p),
        c.len() == p.len() + 1,
    ensures
        intact(cur, buf, c),
{
    assert forall|q: PathView| #[trigger] extends(q, c) implies (cur.contains_key(q) == buf.contains_key(q) && (
    cur.contains_key(q) ==> cur[q] == buf[q])) by {
        lemma_extends_transitive(q, c, p);
        assert(q.len() > p.len());
        assert(m.contains_key(q) == buf.contains_key(q));
    }
}

proof fn lemma_total_push(s: Seq<NodeView>, x: NodeView)
    ensures
        total_weight(s.push(x)) == total_weight(s) + x.weight(),
{
    assert(s.push(x).drop_last() =~= s);
}

/// Takes the branch for `node`'s path out of `branches`, assembles its directories in turn, and
/// sets `node`'s size and sorted children.
fn assemble(
    node: Node,
    branches: &mut Branches,
    order: Order,
    dirs_first: bool,
    Ghost(buf): Ghost<Map<PathView, Seq<NodeView>>>,
    Ghost(fuel): Ghost<nat>,
    Ghost(budget): Ghost<nat>,
) -> (r: Node)
    requires
        old(branches).wf(),
        old(branches).len() <= budget,
    ensures
        r.depth == node.depth,
        final(branches).wf(),
        final(branches).len() <= old(branches).len(),
        ready(old(branches).view(), buf, node@.path, fuel) ==> r@ == assembled(buf, node@, order, dirs_first, fuel)
            && same_outside(old(branches).view(), final(branches).view(), node@.path) && final(branches).view()
            == old(branches).view().remove_keys(consumed(buf, node@, order, dirs_first, fuel)),
    decreases budget,
{
    let ghost m_old = branches.view();
    let ghost n0 = branches.len();
    let ghost e = node@;
    let ghost p = e.path;
    let ghost ready0 = ready(m_old, buf, p, fuel);
    let mut node = node;
    let raw = branches.take(&node.path);
    let ghost r0 = views(raw@);
    let ghost n = r0.len();
    proof {
        if ready0 {
            assert(extends(p, p)) by {
                assert(p.subrange(0, p.len() as int) =~= p);
            }
            assert(m_old.contains_key(p) == buf.contains_key(p));
            if buf.contains_key(p) {
                assert(p.len() < p.len() + fuel);
                assert(m_old[p] == buf[p]);
            }
            assert forall|j: int| 0 <= j < n implies intact(branches.view(), buf, #[trigger] r0[j].path) by {
                assert(r0[j] == buf[p][j]);
                assert(r0[j].path.len() == p.len() + 1 && extends(r0[j].path, p));
                lemma_intact_below(m_old, branches.view(), buf, p, r0[j].path);
            }
            assert(same_outside(m_old, branches.view(), p));
        }
    }
    let mut pending = reversed(raw);
    let mut kids: Vec<Node> = Vec::new();
    let mut total: u64 = 0;
    proof {
        assert(r0.subrange(0, 0) =~= Seq::<NodeView>::empty());
        assert(views(kids@) =~= Seq::<NodeView>::empty());
        assert(views(pending@).reverse() =~= r0.subrange(0, n as int));
        assert(branches.view() =~= m_old.remove_keys(
            set![p].union(consumed_each(buf, r0.subrange(0, 0), order, dirs_first, (fuel - 1) as nat)),
        ));
    }
    while pending.len() > 0
        invariant
            branches.wf(),
            n0 <= budget,
            branches.len() <= n0,
            n > 0 ==> branches.len() < n0,
            n == r0.len(),
            pending.len() <= n,
            views(pending@).reverse() == r0.subrange(n - pending.len(), n as int),
            total as nat == if total_weight(views(kids@)) > u64::MAX {
                u64::MAX as nat
            } else {
                total_weight(views(kids@))
            },
            ready0 == ready(m_old, buf, p, fuel),
            ready0 ==> r0 == (if fuel > 0 && buf.contains_key(p) {
                buf[p]
            } else {
                Seq::empty()
            }),
            ready0 ==> views(kids@) == assembled_each(buf, r0.subrange(0, n - pending.len()), order, dirs_first, (fuel - 1) as nat),
            ready0 ==> forall|j: int| n - pending.len() <= j < n ==> intact(branches.view(), buf, #[trigger] r0[j].path),
            ready0 ==> same_outside(m_old, branches.view(), p),
            ready0 ==> branches.view() == m_old.remove_keys(
                set![p].union(consumed_each(buf, r0.subrange(0, n - pending.len()), order, dirs_first, (fuel - 1) as nat)),
            ),
        decreases pending.len(),
    {
        let ghost i = n - pending.len();
        let ghost before = pending@;
        let c = pending.pop().unwrap();
        let ghost cv = c@;
        proof {
            assert(views(before) =~= views(pending@).push(c@));
            assert(views(before).reverse() =~= seq![c@] + views(pending@).reverse());
            assert(r0.subrange(i, n as int)[0] == r0[i]);
            assert(cv == r0[i]);
            assert(views(pending@).reverse() =~= (seq![c@] + views(pending@).reverse()).drop_first());
            assert(r0.subrange(i + 1, n as int) =~= r0.subrange(i, n as int).drop_first());
        }
        let ghost m_before = branches.view();
        let is_dir = matches!(c.file_type, Some(FileKind::Dir));
        let child = if is_dir {
            proof {
                if ready0 {
                    assert(fuel > 0 && buf.contains_key(p));
                    assert(buf[p][i] == cv);
                    assert(cv.path.len() == p.len() + 1 && extends(cv.path, p));
                    assert forall|q: PathView| #[trigger] buf.contains_key(q) && extends(q, cv.path) implies q.len() < cv.path.len() + (fuel - 1) as nat by {
                        lemma_extends_transitive(q, cv.path, p);
                    }
                    assert(intact(branches.view(), buf, cv.path));
                }
            }
            assemble(c, branches, order, dirs_first, Ghost(buf), Ghost((fuel - 1) as nat), Ghost((budget - 1) as nat))
        } else {
            c
        };
        proof {
            if ready0 {
                assert(buf[p][i] == cv);
                assert(cv.path.len() == p.len() + 1 && extends(cv.path, p));
                if is_dir {
                    assert forall|j: int| i + 1 <= j < n implies intact(branches.view(), buf, #[trigger] r0[j].path) by {
                        assert(buf[p][j] == r0[j]);
                        assert(r0[j].path != cv.path);
                        assert forall|q: PathView| extends(q, r0[j].path) implies (branches.view().contains_key(q)
                            == buf.contains_key(q) && (branches.view().contains_key(q) ==> branches.view()[q]
                            == buf[q])) by {
                            lemma_siblings_apart(q, r0[j].path, cv.path);
                            assert(intact(m_before, buf, r0[j].path));
                        }
                    }
                    assert forall|q: PathView| !extends(q, p) implies (branches.view().contains_key(q)
                        == m_old.contains_key(q) && (branches.view().contains_key(q) ==> branches.view()[q]
                        == m_old[q])) by {
                        if extends(q, cv.path) {
                            lemma_extends_transitive(q, cv.path, p);
                        }
                    }
                }
                let pre = r0.subrange(0, i + 1);
                assert(pre.drop_last() =~= r0.subrange(0, i));
                assert(pre.last() == cv);
                let f = (fuel - 1) as nat;
                let before_set = set![p].union(consumed_each(buf, r0.subrange(0, i), order, dirs_first, f));
                let added = if cv.is_dir() {
                    consumed(buf, cv, order, dirs_first, f)
                } else {
                    Set::empty()
                };
                assert(consumed_each(buf, pre, order, dirs_first, f) == consumed_each(
                    buf,
                    r0.subrange(0, i),
                    order,
                    dirs_first,
                    f,
                ).union(added));
                assert(branches.view() =~= m_old.remove_keys(before_set.union(added)));
                assert(set![p].union(consumed_each(buf, pre, order, dirs_first, f)) =~= before_set.union(added));
            }
        }
        let size: u64 = match child.file_size {
            Some(s) => s,
            None => 0,
        };
        proof {
            lemma_total_push(views(kids@), child@);
            assert(views(kids@.push(child)) =~= views(kids@).push(child@));
        }
        total = total.saturating_add(size);
        kids.push(child);
    }
    proof {
        assert(r0.subrange(0, n as int) =~= r0);
    }
    if total > 0 {
        node.file_size = Some(total);
    }
    let ghost kv = views(kids@);
    node.children = sort_nodes(kids, order, dirs_first);
    proof {
        lemma_view_children(node);
        if ready0 {
            assert(node@ =~= NodeView {
                size: if total_weight(kv) > 0 {
                    dir_size(kv)
                } else {
                    e.size
                },
                children: sort_spec(kv, order, dirs_first),
                ..e
            });
            assert(branches.view() =~= m_old.remove_keys(consumed(buf, e, order, dirs_first, fuel)));
        }
    }
    node
}

/// No two entries of `s` share a path.
pub open spec fn unique_paths(s: Seq<NodeView>) -> bool {
    forall|i: int, j: int| 0 <= i < s.len() && 0 <= j < s.len() && i != j ==> #[trigger] s[i].path != #[trigger] s[j].path
}

/// One more than the length of the longest path in `s`.
pub open spec fn path_bound(s: Seq<NodeView>) -> nat
    decreases s.len(),
{
    if s.len() == 0 {
        0
    } else {
        let b = path_bound(s.drop_last());
        if s.last().path.len() + 1 > b {
            s.last().path.len() + 1
        } else {
            b
        }
    }
}

pub proof fn lemma_path_bound(s: Seq<NodeView>)
    ensures
        forall|i: int| 0 <= i < s.len() ==> (#[trigger] s[i]).path.len() < path_bound(s),
    decreases s.len(),
{
    if s.len() > 0 {
        lemma_path_bound(s.drop_last());
        assert forall|i: int| 0 <= i < s.len() implies (#[trigger] s[i]).path.len() < path_bound(s) by {
            if i < s.len() - 1 {
                assert(s.drop_last()[i] == s[i]);
            }
        }
    }
}

pub proof fn lemma_children_in_shape(s: Seq<NodeView>, k: PathView)
    ensures
        forall|i: int| 0 <= i < children_in(s, k).len() ==> (#[trigger] children_in(s, k)[i]).is_child_of(k),
        forall|i: int| 0 <= i < children_in(s, k).len() ==> s.contains(#[trigger] children_in(s, k)[i]),
        unique_paths(s) ==> forall|i: int, j: int|
            #![trigger children_in(s, k)[i], children_in(s, k)[j]]
            0 <= i < children_in(s, k).len() && 0 <= j < children_in(s, k).len() && i != j ==> children_in(s, k)[i].path
                != children_in(s, k)[j].path,
    decreases s.len(),
{
    if s.len() > 0 {
        let t = s.drop_last();
        lemma_children_in_shape(t, k);
        let c = children_in(s, k);
        let ct = children_in(t, k);
        assert forall|i: int| 0 <= i < ct.len() implies s.contains(#[trigger] ct[i]) by {
            let j = choose|j: int| 0 <= j < t.len() && t[j] == ct[i];
            assert(s[j] == t[j]);
        }
        if s.last().is_child_of(k) {
            assert(c == ct.push(s.last()));
            assert(s[s.len() - 1] == s.last());
            if unique_paths(s) {
                assert(unique_paths(t)) by {
                    assert forall|i: int, j: int| 0 <= i < t.len() && 0 <= j < t.len() && i != j implies #[trigger] t[i].path
                        != #[trigger] t[j].path by {
                        assert(t[i] == s[i] && t[j] == s[j]);
                    }
                }
                assert forall|i: int| 0 <= i < ct.len() implies #[trigger] ct[i].path != s.last().path by {
                    let j = choose|j: int| 0 <= j < t.len() && t[j] == ct[i];
                    assert(s[j] == t[j]);
                }
            }
        } else {
            if unique_paths(s) {
                assert(unique_paths(t)) by {
                    assert forall|i: int, j: int| 0 <= i < t.len() && 0 <= j < t.len() && i != j implies #[trigger] t[i].path
                        != #[trigger] t[j].path by {
                        assert(t[i] == s[i] && t[j] == s[j]);
                    }
                }
            }
        }
    }
}

pub proof fn lemma_buffer_ready(s: Seq<NodeView>, p: PathView)
    requires
        unique_paths(s),
    ensures
        ready(buffer_of(s), buffer_of(s), p, path_bound(s)),
{
    let buf = buffer_of(s);
    assert forall|k: PathView, i: int| buf.contains_key(k) && 0 <= i < buf[k].len() implies #[trigger] buf[k][i].path.len()
        == k.len() + 1 && extends(buf[k][i].path, k) by {
        lemma_children_in_shape(s, k);
        let c = buf[k][i];
        assert(c.is_child_of(k));
        assert(c.path.subrange(0, k.len() as int) =~= c.path.drop_last());
    }
    assert forall|k: PathView, i: int, j: int|
        buf.contains_key(k) && 0 <= i < buf[k].len() && 0 <= j < buf[k].len() && i != j implies #[trigger] buf[k][i].path
        != #[trigger] buf[k][j].path by {
        lemma_children_in_shape(s, k);
    }
    lemma_path_bound(s);
    assert forall|q: PathView| #[trigger] buf.contains_key(q) && extends(q, p) implies q.len() < p.len() + path_bound(s) by {
        let i = choose|i: int| 0 <= i < s.len() && opens_branch(s[i], q);
        assert(s[i].path.len() < path_bound(s));
    }
}

/// In-memory representation of the root directory and its contents.
pub struct Tree {
    pub level: Option<usize>,
    pub order: Order,
    pub root: Node,
}

impl Tree {
    /// Builds the tree from the entries of one traversal, in the order in which they arrived:
    /// the entry at depth zero becomes the root, every other entry is placed under its parent
    /// directory, directory sizes are summed bottom-up and children sorted by `order`.
    pub fn new(entries: Vec<Node>, order: Order, dirs_first: bool, level: Option<usize>) -> (r: Result<
        Tree,
        TreeError,
    >)
        ensures
            has_orphan(views(entries@)) <==> r == Err::<Tree, TreeError>(TreeError::ExpectedParent),
            !has_orphan(views(entries@)) ==> ((forall|i: int| 0 <= i < entries@.len() ==> (#[trigger] entries@[i]).depth != 0)
                <==> r == Err::<Tree, TreeError>(TreeError::MissingRoot)),
            r matches Ok(t) ==> t.level == level && t.order == order && t.root.depth == 0 && (unique_paths(views(entries@))
                ==> t.root@ == assembled(
                buffer_of(views(entries@)),
                root_of(views(entries@))->0,
                order,
                dirs_first,
                path_bound(views(entries@)),
            )),
    {
        let ghost s = views(entries@);
        match aggregate(entries) {
            Err(e) => Err(e),
            Ok((root, branches)) => {
                let mut branches = branches;
                proof {
                    if unique_paths(s) {
                        lemma_buffer_ready(s, root@.path);
                    }
                }
                let ghost budget = branches.len();
                let root = assemble(
                    root,
                    &mut branches,
                    order,
                    dirs_first,
                    Ghost(buffer_of(s)),
                    Ghost(path_bound(s)),
                    Ghost(budget),
                );
                Ok(Tree { level, order, root })
            },
        }
    }

    /// Returns a reference to the root [`Node`].
    pub fn root(&self) -> (r: &Node)
        ensures
            r == &self.root,
    {
        &self.root
    }
}

impl Aggregator {
    /// Ends the stream and assembles the tree of what was received, as [`Tree::new`] does;
    /// `MissingRoot` when no entry at depth zero came.
    pub fn into_tree(self, order: Order, dirs_first: bool, level: Option<usize>) -> (r: Result<Tree, TreeError>)
        requires
            self.inv(),
        ensures
            root_of(self.received()) is None <==> r is Err,
            r is Err ==> r == Err::<Tree, TreeError>(TreeError::MissingRoot),
            r matches Ok(t) ==> t.level == level && t.order == order && t.root.depth == 0 && (unique_paths(self.received())
                ==> t.root@ == assembled(
                buffer_of(self.received()),
                root_of(self.received())->0,
                order,
                dirs_first,
                path_bound(self.received()),
            )),
    {
        let ghost s = self.received();
        match self.finish() {
            Err(e) => Err(e),
            Ok((root, branches)) => {
                let mut branches = branches;
                proof {
                    lemma_root_absent(s);
                    if unique_paths(s) {
                        lemma_buffer_ready(s, root@.path);
                    }
                }
                let ghost budget = branches.len();
                let root = assemble(
                    root,
                    &mut branches,
                    order,
                    dirs_first,
                    Ghost(buffer_of(s)),
                    Ghost(path_bound(s)),
                    Ghost(budget),
                );
                Ok(Tree { level, order, root })
            },
        }
    }
}

} // verus!
