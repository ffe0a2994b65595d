use vstd::prelude::*;

use vstd::multiset::Multiset;

use crate::cli::Order;
use crate::node::{NodeView, PathView};
use crate::order::{
    insert_sorted, is_sorted, lemma_lex_total, lemma_sort_of_sorted, lemma_sort_permutes, lemma_sort_sorted, precedes,
    sort_spec,
};
use crate::aggregate::{buffer_of, children_in, lemma_root_absent, opens_branch, root_of};
use crate::render::{SEP, SizeLocation, ThemeView, allows, kid_lines, line_text, lower, tree_lines};
use crate::prune::{pruned, pruned_kids, survives, survivors};
use crate::tree::{
    assembled, assembled_each, dir_size, lemma_buffer_ready, lemma_children_in_shape, lemma_path_bound, path_bound,
    total_weight, unique_paths,
};

verus! {

/// Sorting twice gives what sorting once gives.
pub proof fn law_sort_idempotent(s: Seq<NodeView>, order: Order, dirs_first: bool)
    ensures
        sort_spec(sort_spec(s, order, dirs_first), order, dirs_first) == sort_spec(s, order, dirs_first),
{
    if order != Order::Unsorted {
        lemma_sort_sorted(s, order, dirs_first);
        lemma_sort_of_sorted(sort_spec(s, order, dirs_first), order, dirs_first);
    }
}

/// With directories first, no entry that is not a directory comes before a directory, whatever
/// the order chosen (but no order at all).
pub proof fn law_dirs_first(s: Seq<NodeView>, order: Order)
    requires
        order != Order::Unsorted,
    ensures
        forall|i: int, j: int|
            0 <= i < j < sort_spec(s, order, true).len() ==> !(#[trigger] sort_spec(s, order, true)[j].is_dir()
                && !#[trigger] sort_spec(s, order, true)[i].is_dir()),
{
    lemma_sort_sorted(s, order, true);
    let r = sort_spec(s, order, true);
    assert forall|i: int, j: int| 0 <= i < j < r.len() implies !(#[trigger] r[j].is_dir() && !#[trigger] r[i].is_dir()) by {
        assert(!precedes(r[j], r[i], order, true));
    }
}

proof fn lemma_total_prepend(x: NodeView, s: Seq<NodeView>)
    ensures
        total_weight(seq![x] + s) == x.weight() + total_weight(s),
    decreases s.len(),
{
    if s.len() > 0 {
        lemma_total_prepend(x, s.drop_last());
        assert((seq![x] + s).drop_last() =~= seq![x] + s.drop_last());
        assert((seq![x] + s).last() == s.last());
    } else {
        assert(seq![x] + s =~= seq![x]);
        assert(seq![x].drop_last() =~= Seq::<NodeView>::empty());
        assert(total_weight(Seq::<NodeView>::empty()) == 0);
        assert(total_weight(seq![x]) == total_weight(seq![x].drop_last()) + seq![x].last().weight());
    }
}

proof fn lemma_total_insert(r: Seq<NodeView>, x: NodeView, order: Order, dirs_first: bool)
    ensures
        total_weight(insert_sorted(r, x, order, dirs_first)) == total_weight(r) + x.weight(),
    decreases r.len(),
{
    if r.len() > 0 {
        lemma_total_prepend(r[0], r.drop_first());
        assert(r =~= seq![r[0]] + r.drop_first());
        if precedes(r[0], x, order, dirs_first) {
            lemma_total_insert(r.drop_first(), x, order, dirs_first);
            lemma_total_prepend(r[0], insert_sorted(r.drop_first(), x, order, dirs_first));
        } else {
            lemma_total_prepend(x, r);
        }
    } else {
        lemma_total_prepend(x, r);
    }
}

/// Sorting keeps the total size.
pub proof fn lemma_total_sort(s: Seq<NodeView>, order: Order, dirs_first: bool)
    ensures
        total_weight(sort_spec(s, order, dirs_first)) == total_weight(s),
    decreases s.len(),
{
    if s.len() > 0 && order != Order::Unsorted {
        lemma_total_sort(s.drop_first(), order, dirs_first);
        lemma_total_insert(sort_spec(s.drop_first(), order, dirs_first), s[0], order, dirs_first);
        lemma_total_prepend(s[0], s.drop_first());
        assert(s =~= seq![s[0]] + s.drop_first());
    }
}

/// Every directory of the tree under `n`, `n` included, has the size its children sum to.
pub open spec fn sizes_summed(n: NodeView) -> bool
    decreases n,
{
    &&& (n.is_dir() ==> n.size == dir_size(n.children))
    &&& forall|i: int|
        0 <= i < n.children.len() && (#[trigger] n.children[i]).is_dir() ==> sizes_summed(n.children[i])
}

/// Every directory among the branches' entries comes without a size.
pub open spec fn dirs_unsized(buf: Map<PathView, Seq<NodeView>>) -> bool {
    forall|k: PathView, i: int|
        #![trigger buf[k][i]]
        buf.contains_key(k) && 0 <= i < buf[k].len() && buf[k][i].is_dir() ==> buf[k][i].size is None
}

proof fn lemma_each_summed(
    buf: Map<PathView, Seq<NodeView>>,
    cs: Seq<NodeView>,
    order: Order,
    dirs_first: bool,
    fuel: nat,
)
    requires
        dirs_unsized(buf),
        forall|j: int| 0 <= j < cs.len() && (#[trigger] cs[j]).is_dir() ==> cs[j].size is None,
    ensures
        forall|j: int|
            0 <= j < assembled_each(buf, cs, order, dirs_first, fuel).len() && (#[trigger] assembled_each(
                buf,
                cs,
                order,
                dirs_first,
                fuel,
            )[j]).is_dir() ==> sizes_summed(assembled_each(buf, cs, order, dirs_first, fuel)[j]),
        assembled_each(buf, cs, order, dirs_first, fuel).len() == cs.len(),
    decreases fuel, cs.len(),
{
    if cs.len() > 0 {
        let t = cs.drop_last();
        assert forall|j: int| 0 <= j < t.len() && (#[trigger] t[j]).is_dir() implies t[j].size is None by {
            assert(t[j] == cs[j]);
        }
        lemma_each_summed(buf, cs.drop_last(), order, dirs_first, fuel);
        let c = cs.last();
        assert(c == cs[cs.len() - 1]);
        if c.is_dir() {
            lemma_node_summed(buf, c, order, dirs_first, fuel);
        }
        let prev = assembled_each(buf, cs.drop_last(), order, dirs_first, fuel);
        let all = assembled_each(buf, cs, order, dirs_first, fuel);
        assert forall|j: int| 0 <= j < all.len() && (#[trigger] all[j]).is_dir() implies sizes_summed(all[j]) by {
            if j < prev.len() {
                assert(all[j] == prev[j]);
            }
        }
    }
}

proof fn lemma_node_summed(
    buf: Map<PathView, Seq<NodeView>>,
    e: NodeView,
    order: Order,
    dirs_first: bool,
    fuel: nat,
)
    requires
        dirs_unsized(buf),
        e.is_dir() ==> e.size is None,
    ensures
        sizes_summed(assembled(buf, e, order, dirs_first, fuel)),
    decreases fuel, 0nat,
{
    broadcast use vstd::seq_lib::group_to_multiset_ensures;
    let kids = if fuel > 0 && buf.contains_key(e.path) {
        assembled_each(buf, buf[e.path], order, dirs_first, (fuel - 1) as nat)
    } else {
        Seq::empty()
    };
    if fuel > 0 && buf.contains_key(e.path) {
        let cs = buf[e.path];
        assert forall|j: int| 0 <= j < cs.len() && (#[trigger] cs[j]).is_dir() implies cs[j].size is None by {
            assert(buf[e.path][j].is_dir());
        }
        lemma_each_summed(buf, buf[e.path], order, dirs_first, (fuel - 1) as nat);
    }
    let sorted = sort_spec(kids, order, dirs_first);
    lemma_total_sort(kids, order, dirs_first);
    lemma_sort_permutes(kids, order, dirs_first);
    let a = assembled(buf, e, order, dirs_first, fuel);
    assert(a.children == sorted);
    assert forall|i: int| 0 <= i < a.children.len() && (#[trigger] a.children[i]).is_dir() implies sizes_summed(
        a.children[i],
    ) by {
        assert(sorted.to_multiset().contains(sorted[i]));
        assert(kids.contains(sorted[i]));
        let j = choose|j: int| 0 <= j < kids.len() && kids[j] == sorted[i];
        assert(kids[j].is_dir());
    }
}

/// Every directory of the tree built from a stream of entries has the sum of its children's
/// sizes as its size, or no size when that sum is zero, when directories arrive without a size.
pub proof fn law_size_aggregation(s: Seq<NodeView>, order: Order, dirs_first: bool)
    requires
        root_of(s) is Some,
        forall|i: int| 0 <= i < s.len() && (#[trigger] s[i]).is_dir() ==> s[i].size is None,
    ensures
        sizes_summed(assembled(buffer_of(s), root_of(s)->0, order, dirs_first, path_bound(s))),
{
    let buf = buffer_of(s);
    lemma_root_absent(s);
    assert forall|k: PathView, i: int| buf.contains_key(k) && 0 <= i < buf[k].len() && (#[trigger] buf[k][i]).is_dir()
        implies buf[k][i].size is None by {
        lemma_children_in_shape(s, k);
        let j = choose|j: int| 0 <= j < s.len() && s[j] == buf[k][i];
    }
    let r = root_of(s)->0;
    let j = choose|j: int| 0 <= j < s.len() && s[j] == r;
    assert(s[j].is_dir() ==> s[j].size is None);
    lemma_node_summed(buf, r, order, dirs_first, path_bound(s));
}

/// Below `n`, every child is one level deeper than its parent.
pub open spec fn depths_follow(n: NodeView) -> bool
    decreases n,
{
    forall|i: int|
        0 <= i < n.children.len() ==> (#[trigger] n.children[i]).depth == n.depth + 1 && (n.children[i].is_dir()
            ==> depths_follow(n.children[i]))
}

/// Each entry's depth is the number of components its path has beyond `base` of them.
pub open spec fn depth_matches(e: NodeView, base: nat) -> bool {
    e.depth + base == e.path.len()
}

pub open spec fn buffer_depths(buf: Map<PathView, Seq<NodeView>>, base: nat) -> bool {
    forall|k: PathView, i: int|
        buf.contains_key(k) && 0 <= i < buf[k].len() ==> depth_matches(#[trigger] buf[k][i], base)
            && buf[k][i].path.len() == k.len() + 1
}

proof fn lemma_each_depth(
    buf: Map<PathView, Seq<NodeView>>,
    cs: Seq<NodeView>,
    order: Order,
    dirs_first: bool,
    fuel: nat,
    base: nat,
)
    requires
        buffer_depths(buf, base),
        forall|j: int| 0 <= j < cs.len() ==> depth_matches(#[trigger] cs[j], base),
    ensures
        assembled_each(buf, cs, order, dirs_first, fuel).len() == cs.len(),
        forall|j: int|
            0 <= j < cs.len() ==> (#[trigger] assembled_each(buf, cs, order, dirs_first, fuel)[j]).depth == cs[j].depth
                && (assembled_each(buf, cs, order, dirs_first, fuel)[j].is_dir() ==> depths_follow(
                assembled_each(buf, cs, order, dirs_first, fuel)[j],
            )),
    decreases fuel, cs.len(),
{
    if cs.len() > 0 {
        let t = cs.drop_last();
        assert forall|j: int| 0 <= j < t.len() implies depth_matches(#[trigger] t[j], base) by {
            assert(t[j] == cs[j]);
        }
        lemma_each_depth(buf, t, order, dirs_first, fuel, base);
        let c = cs.last();
        assert(c == cs[cs.len() - 1]);
        if c.is_dir() {
            lemma_node_depth(buf, c, order, dirs_first, fuel, base);
        }
        let prev = assembled_each(buf, t, order, dirs_first, fuel);
        let all = assembled_each(buf, cs, order, dirs_first, fuel);
        assert forall|j: int| 0 <= j < cs.len() implies (#[trigger] all[j]).depth == cs[j].depth && (all[j].is_dir()
            ==> depths_follow(all[j])) by {
            if j < t.len() {
                assert(all[j] == prev[j]);
                assert(t[j] == cs[j]);
            }
        }
    }
}

proof fn lemma_node_depth(
    buf: Map<PathView, Seq<NodeView>>,
    e: NodeView,
    order: Order,
    dirs_first: bool,
    fuel: nat,
    base: nat,
)
    requires
        buffer_depths(buf, base),
        depth_matches(e, base),
    ensures
        depths_follow(assembled(buf, e, order, dirs_first, fuel)),
        assembled(buf, e, order, dirs_first, fuel).depth == e.depth,
    decreases fuel, 0nat,
{
    broadcast use vstd::seq_lib::group_to_multiset_ensures;
    let has = fuel > 0 && buf.contains_key(e.path);
    let kids = if has {
        assembled_each(buf, buf[e.path], order, dirs_first, (fuel - 1) as nat)
    } else {
        Seq::empty()
    };
    if has {
        let cs = buf[e.path];
        assert forall|j: int| 0 <= j < cs.len() implies depth_matches(#[trigger] cs[j], base) by {
            assert(depth_matches(buf[e.path][j], base));
        }
        lemma_each_depth(buf, cs, order, dirs_first, (fuel - 1) as nat, base);
        assert forall|j: int| 0 <= j < kids.len() implies (#[trigger] kids[j]).depth == e.depth + 1 && (kids[j].is_dir()
            ==> depths_follow(kids[j])) by {
            assert(depth_matches(buf[e.path][j], base));
            assert(buf[e.path][j].path.len() == e.path.len() + 1);
        }
    }
    let sorted = sort_spec(kids, order, dirs_first);
    lemma_sort_permutes(kids, order, dirs_first);
    let a = assembled(buf, e, order, dirs_first, fuel);
    assert(a.children == sorted);
    assert forall|i: int| 0 <= i < a.children.len() implies (#[trigger] a.children[i]).depth == a.depth + 1 && (
    a.children[i].is_dir() ==> depths_follow(a.children[i])) by {
        assert(sorted.to_multiset().contains(sorted[i]));
        assert(kids.contains(sorted[i]));
        let j = choose|j: int| 0 <= j < kids.len() && kids[j] == sorted[i];
        assert(kids[j].depth == e.depth + 1);
    }
}

/// When every entry's depth counts the components its path has beyond the root's, the tree built
/// from the stream has its root at depth zero and every child one level below its parent.
pub proof fn law_depth_invariant(s: Seq<NodeView>, order: Order, dirs_first: bool)
    requires
        root_of(s) is Some,
        forall|i: int| 0 <= i < s.len() ==> depth_matches(#[trigger] s[i], root_of(s)->0.path.len()),
    ensures
        assembled(buffer_of(s), root_of(s)->0, order, dirs_first, path_bound(s)).depth == 0,
        depths_follow(assembled(buffer_of(s), root_of(s)->0, order, dirs_first, path_bound(s))),
{
    let root = root_of(s)->0;
    let base = root.path.len();
    let buf = buffer_of(s);
    lemma_root_absent(s);
    assert forall|k: PathView, i: int| buf.contains_key(k) && 0 <= i < buf[k].len() implies depth_matches(
        #[trigger] buf[k][i],
        base,
    ) && buf[k][i].path.len() == k.len() + 1 by {
        lemma_children_in_shape(s, k);
        let c = buf[k][i];
        assert(c.is_child_of(k));
        let j = choose|j: int| 0 <= j < s.len() && s[j] == c;
        assert(depth_matches(s[j], base));
    }
    let j = choose|j: int| 0 <= j < s.len() && s[j] == root;
    assert(depth_matches(s[j], base));
    lemma_node_depth(buf, root, order, dirs_first, path_bound(s), base);
}

/// No directory below `n` is left without children.
pub open spec fn no_empty_dirs(n: NodeView) -> bool
    decreases n,
{
    forall|i: int|
        0 <= i < n.children.len() ==> survives(#[trigger] n.children[i]) && (n.children[i].is_dir()
            ==> no_empty_dirs(n.children[i]))
}

pub open spec fn sum(s: Seq<nat>) -> nat
    decreases s.len(),
{
    if s.len() == 0 {
        0
    } else {
        sum(s.drop_last()) + s.last()
    }
}

/// The number of entries below `n` that are not directories, looking inside directories only.
pub open spec fn file_count(n: NodeView) -> nat
    decreases n, 1nat,
{
    sum(child_counts(n))
}

/// What each child of `n` adds to `file_count(n)`.
pub open spec fn child_counts(n: NodeView) -> Seq<nat>
    decreases n, 0nat,
{
    Seq::new(
        n.children.len(),
        |i: int|
            if 0 <= i < n.children.len() && n.children[i].is_dir() {
                file_count(n.children[i])
            } else {
                1nat
            },
    )
}

pub open spec fn count_of(c: NodeView) -> nat {
    if c.is_dir() {
        file_count(c)
    } else {
        1
    }
}

pub open spec fn counts_of(s: Seq<NodeView>) -> Seq<nat> {
    Seq::new(s.len(), |i: int| count_of(s[i]))
}

proof fn lemma_survivors(s: Seq<NodeView>)
    ensures
        sum(counts_of(survivors(s))) == sum(counts_of(s)),
        forall|i: int| 0 <= i < survivors(s).len() ==> survives(#[trigger] survivors(s)[i]) && s.contains(survivors(s)[i]),
    decreases s.len(),
{
    if s.len() > 0 {
        let t = s.drop_last();
        let x = s.last();
        lemma_survivors(t);
        assert(counts_of(s).drop_last() =~= counts_of(t));
        assert(counts_of(s).last() == count_of(x));
        assert forall|i: int| 0 <= i < survivors(t).len() implies s.contains(#[trigger] survivors(t)[i]) by {
            let j = choose|j: int| 0 <= j < t.len() && t[j] == survivors(t)[i];
            assert(s[j] == t[j]);
        }
        assert(s[s.len() - 1] == x);
        if survives(x) {
            let u = survivors(t).push(x);
            assert(counts_of(u).drop_last() =~= counts_of(survivors(t)));
            assert(counts_of(u).last() == count_of(x));
        } else {
            assert(child_counts(x) =~= Seq::<nat>::empty());
            assert(file_count(x) == 0);
        }
    }
}

proof fn lemma_prune(n: NodeView)
    ensures
        no_empty_dirs(pruned(n)),
        file_count(pruned(n)) == file_count(n),
        pruned(n).kind == n.kind,
    decreases n,
{
    let pk = pruned_kids(n);
    let p = pruned(n);
    assert forall|i: int| 0 <= i < n.children.len() implies count_of(#[trigger] pk[i]) == child_counts(n)[i] && (
    pk[i].is_dir() ==> no_empty_dirs(pk[i])) by {
        let c = n.children[i];
        if c.is_dir() {
            assert(decreases_to!(n => n.children));
            lemma_prune(c);
        }
    }
    assert(counts_of(pk) =~= child_counts(n));
    lemma_survivors(pk);
    assert(child_counts(p) =~= counts_of(p.children));
    assert forall|i: int| 0 <= i < p.children.len() implies survives(#[trigger] p.children[i]) && (p.children[i].is_dir()
        ==> no_empty_dirs(p.children[i])) by {
        let j = choose|j: int| 0 <= j < pk.len() && pk[j] == p.children[i];
        assert(count_of(pk[j]) == child_counts(n)[j]);
    }
}

/// After pruning, no directory below the node is left without children, and every entry that
/// is not a directory is still there.
pub proof fn law_prune(n: NodeView)
    ensures
        no_empty_dirs(pruned(n)),
        file_count(pruned(n)) == file_count(n),
{
    lemma_prune(n);
}

/// The lines of `ls` whose node lies at most `k` levels deep, in order.
pub open spec fn keep_upto(ls: Seq<(nat, Seq<char>)>, k: nat) -> Seq<(nat, Seq<char>)>
    decreases ls.len(),
{
    if ls.len() == 0 {
        ls
    } else if ls.last().0 <= k {
        keep_upto(ls.drop_last(), k).push(ls.last())
    } else {
        keep_upto(ls.drop_last(), k)
    }
}

proof fn lemma_keep_add(a: Seq<(nat, Seq<char>)>, b: Seq<(nat, Seq<char>)>, k: nat)
    ensures
        keep_upto(a + b, k) == keep_upto(a, k) + keep_upto(b, k),
    decreases b.len(),
{
    if b.len() == 0 {
        assert(a + b =~= a);
        assert(keep_upto(a, k) + keep_upto(b, k) =~= keep_upto(a, k));
    } else {
        lemma_keep_add(a, b.drop_last(), k);
        assert((a + b).drop_last() =~= a + b.drop_last());
        assert((a + b).last() == b.last());
        if b.last().0 <= k {
            assert(keep_upto(a, k) + keep_upto(b.drop_last(), k).push(b.last()) =~= (keep_upto(a, k) + keep_upto(
                b.drop_last(),
                k,
            )).push(b.last()));
        }
    }
}

proof fn lemma_keep_none(ls: Seq<(nat, Seq<char>)>, k: nat)
    requires
        forall|i: int| 0 <= i < ls.len() ==> (#[trigger] ls[i]).0 > k,
    ensures
        keep_upto(ls, k) == Seq::<(nat, Seq<char>)>::empty(),
    decreases ls.len(),
{
    if ls.len() > 0 {
        let t = ls.drop_last();
        assert forall|i: int| 0 <= i < t.len() implies (#[trigger] t[i]).0 > k by {
            assert(t[i] == ls[i]);
        }
        lemma_keep_none(t, k);
        assert(ls[ls.len() - 1] == ls.last());
    }
}

proof fn lemma_kid_lines_deep(
    n: NodeView,
    base: Seq<char>,
    depth: nat,
    rem: Option<nat>,
    th: ThemeView,
    loc: SizeLocation,
    scale: nat,
    i: nat,
)
    ensures
        forall|j: int|
            0 <= j < kid_lines(n, base, depth, rem, th, loc, scale, i).len() ==> (#[trigger] kid_lines(
                n,
                base,
                depth,
                rem,
                th,
                loc,
                scale,
                i,
            )[j]).0 >= depth,
    decreases n, n.children.len() - i,
{
    if i < n.children.len() {
        let c = n.children[i as int];
        let last = i + 1 == n.children.len();
        let below = if c.is_dir() && allows(rem) {
            kid_lines(c, base + if last { SEP@ } else { th.vt }, depth + 1, lower(rem), th, loc, scale, 0)
        } else {
            Seq::empty()
        };
        if c.is_dir() && allows(rem) {
            lemma_kid_lines_deep(c, base + if last { SEP@ } else { th.vt }, depth + 1, lower(rem), th, loc, scale, 0);
        }
        lemma_kid_lines_deep(n, base, depth, rem, th, loc, scale, i + 1);
        let own = seq![(depth, line_text(c, base + if last { th.uprt } else { th.vtrt }, loc, scale))];
        let rest = kid_lines(n, base, depth, rem, th, loc, scale, i + 1);
        let all = kid_lines(n, base, depth, rem, th, loc, scale, i);
        assert(all == own + below + rest);
        assert forall|j: int| 0 <= j < all.len() implies (#[trigger] all[j]).0 >= depth by {
            if j == 0 {
            } else if j < 1 + below.len() {
                assert(all[j] == below[j - 1]);
            } else {
                assert(all[j] == rest[j - 1 - below.len()]);
            }
        }
    }
}

proof fn lemma_kid_lines_capped(
    n: NodeView,
    base: Seq<char>,
    depth: nat,
    r: nat,
    th: ThemeView,
    loc: SizeLocation,
    scale: nat,
    i: nat,
)
    ensures
        kid_lines(n, base, depth, Some(r), th, loc, scale, i) == keep_upto(
            kid_lines(n, base, depth, None, th, loc, scale, i),
            depth + r,
        ),
    decreases n, n.children.len() - i,
{
    if i >= n.children.len() {
        assert(keep_upto(Seq::<(nat, Seq<char>)>::empty(), depth + r) =~= Seq::<(nat, Seq<char>)>::empty());
    } else {
        let c = n.children[i as int];
        let last = i + 1 == n.children.len();
        let nb = base + if last { SEP@ } else { th.vt };
        let own = seq![(depth, line_text(c, base + if last { th.uprt } else { th.vtrt }, loc, scale))];
        let below_n = if c.is_dir() {
            kid_lines(c, nb, depth + 1, None, th, loc, scale, 0)
        } else {
            Seq::empty()
        };
        let below_r = if c.is_dir() && r >= 1 {
            kid_lines(c, nb, depth + 1, Some((r - 1) as nat), th, loc, scale, 0)
        } else {
            Seq::empty()
        };
        let rest_n = kid_lines(n, base, depth, None, th, loc, scale, i + 1);
        lemma_kid_lines_capped(n, base, depth, r, th, loc, scale, i + 1);
        assert(kid_lines(n, base, depth, None, th, loc, scale, i) == own + below_n + rest_n);
        assert(kid_lines(n, base, depth, Some(r), th, loc, scale, i) == own + below_r + kid_lines(
            n,
            base,
            depth,
            Some(r),
            th,
            loc,
            scale,
            i + 1,
        ));
        lemma_keep_add(own + below_n, rest_n, depth + r);
        lemma_keep_add(own, below_n, depth + r);
        assert(keep_upto(own, depth + r) =~= own) by {
            assert(own.drop_last() =~= Seq::<(nat, Seq<char>)>::empty());
            assert(keep_upto(own.drop_last(), depth + r) =~= Seq::<(nat, Seq<char>)>::empty());
            assert(own.last().0 <= depth + r);
            assert(Seq::<(nat, Seq<char>)>::empty().push(own.last()) =~= own);
        }
        if c.is_dir() {
            if r >= 1 {
                lemma_kid_lines_capped(c, nb, depth + 1, (r - 1) as nat, th, loc, scale, 0);
            } else {
                lemma_kid_lines_deep(c, nb, depth + 1, None, th, loc, scale, 0);
                lemma_keep_none(below_n, depth + r);
            }
        } else {
            assert(keep_upto(below_n, depth + r) =~= below_n);
        }
    }
}

/// Capping the display depth at `k` prints exactly the lines of the uncapped rendering whose node
/// lies at most `k` levels deep, in the same order and with the same text.
pub proof fn law_render_depth_cap(root: NodeView, k: nat, th: ThemeView, loc: SizeLocation, scale: nat)
    ensures
        tree_lines(root, Some(k), th, loc, scale) == keep_upto(tree_lines(root, None, th, loc, scale), k),
{
    let head = seq![(0nat, line_text(root, Seq::empty(), loc, scale))];
    let all = kid_lines(root, Seq::empty(), 1, None, th, loc, scale, 0);
    lemma_keep_add(head, all, k);
    assert(keep_upto(head, k) =~= head) by {
        assert(head.drop_last() =~= Seq::<(nat, Seq<char>)>::empty());
        assert(keep_upto(head.drop_last(), k) =~= Seq::<(nat, Seq<char>)>::empty());
        assert(head.last().0 <= k);
        assert(Seq::<(nat, Seq<char>)>::empty().push(head.last()) =~= head);
    }
    if k >= 1 {
        lemma_kid_lines_capped(root, Seq::empty(), 1, (k - 1) as nat, th, loc, scale, 0);
        assert(tree_lines(root, Some(k), th, loc, scale) == head + kid_lines(
            root,
            Seq::empty(),
            1,
            Some((k - 1) as nat),
            th,
            loc,
            scale,
            0,
        ));
    } else {
        lemma_kid_lines_deep(root, Seq::empty(), 1, None, th, loc, scale, 0);
        lemma_keep_none(all, k);
        assert(tree_lines(root, Some(k), th, loc, scale) =~= head + Seq::<(nat, Seq<char>)>::empty());
    }
}

/// Two sequences in order with the same entries are the same, when any two different entries
/// are ordered one way or the other.
pub proof fn lemma_sorted_unique(x: Seq<NodeView>, y: Seq<NodeView>, order: Order, dirs_first: bool)
    requires
        x.to_multiset() == y.to_multiset(),
        is_sorted(x, order, dirs_first),
        is_sorted(y, order, dirs_first),
        forall|a: NodeView, b: NodeView|
            #![trigger x.contains(a), x.contains(b)]
            x.contains(a) && x.contains(b) && a != b ==> precedes(a, b, order, dirs_first) || precedes(
                b,
                a,
                order,
                dirs_first,
            ),
    ensures
        x == y,
    decreases x.len(),
{
    broadcast use vstd::seq_lib::group_to_multiset_ensures;
    if x.len() == 0 {
        assert(y.to_multiset().len() == 0);
        assert(y =~= x);
    } else {
        assert(x.to_multiset().len() == x.len());
        assert(y.to_multiset().len() == y.len());
        assert(y.len() == x.len());
        assert(x.contains(x[0]));
        assert(x.to_multiset().count(x[0]) > 0);
        assert(y.contains(x[0]));
        assert(y.contains(y[0]));
        assert(y.to_multiset().count(y[0]) > 0);
        assert(x.contains(y[0]));
        let i = choose|i: int| 0 <= i < x.len() && x[i] == y[0];
        let j = choose|j: int| 0 <= j < y.len() && y[j] == x[0];
        assert(x[0] == y[0]) by {
            if x[0] != y[0] {
                assert(i != 0 && j != 0);
                assert(!precedes(x[i], x[0], order, dirs_first));
                assert(!precedes(y[j], y[0], order, dirs_first));
                assert(precedes(x[0], y[0], order, dirs_first) || precedes(y[0], x[0], order, dirs_first));
                assert(false);
            }
        }
        let xt = x.drop_first();
        let yt = y.drop_first();
        assert(x =~= seq![x[0]] + xt);
        assert(y =~= seq![y[0]] + yt);
        vstd::seq_lib::lemma_multiset_commutative(seq![x[0]], xt);
        vstd::seq_lib::lemma_multiset_commutative(seq![y[0]], yt);
        assert(seq![x[0]].to_multiset() == seq![y[0]].to_multiset());
        assert(xt.to_multiset() =~= yt.to_multiset()) by {
            assert forall|v: NodeView| xt.to_multiset().count(v) == yt.to_multiset().count(v) by {
                assert(x.to_multiset().count(v) == seq![x[0]].to_multiset().count(v) + xt.to_multiset().count(v));
                assert(y.to_multiset().count(v) == seq![y[0]].to_multiset().count(v) + yt.to_multiset().count(v));
            }
        }
        assert(is_sorted(xt, order, dirs_first)) by {
            assert forall|a: int, b: int| 0 <= a < b < xt.len() implies !precedes(#[trigger] xt[b], #[trigger] xt[a], order, dirs_first) by {
                assert(xt[a] == x[a + 1] && xt[b] == x[b + 1]);
            }
        }
        assert(is_sorted(yt, order, dirs_first)) by {
            assert forall|a: int, b: int| 0 <= a < b < yt.len() implies !precedes(#[trigger] yt[b], #[trigger] yt[a], order, dirs_first) by {
                assert(yt[a] == y[a + 1] && yt[b] == y[b + 1]);
            }
        }
        assert forall|a: NodeView, b: NodeView| xt.contains(a) && xt.contains(b) && a != b implies precedes(
            a,
            b,
            order,
            dirs_first,
        ) || precedes(b, a, order, dirs_first) by {
            let ia = choose|k: int| 0 <= k < xt.len() && xt[k] == a;
            let ib = choose|k: int| 0 <= k < xt.len() && xt[k] == b;
            assert(x[ia + 1] == a && x[ib + 1] == b);
            assert(x.contains(a) && x.contains(b));
        }
        lemma_sorted_unique(xt, yt, order, dirs_first);
    }
}

proof fn lemma_reverse_multiset(s: Seq<NodeView>)
    ensures
        s.reverse().to_multiset() == s.to_multiset(),
    decreases s.len(),
{
    broadcast use vstd::seq_lib::group_to_multiset_ensures;
    if s.len() > 0 {
        let t = s.drop_last();
        lemma_reverse_multiset(t);
        assert(s.reverse() =~= seq![s.last()] + t.reverse());
        vstd::seq_lib::lemma_multiset_commutative(seq![s.last()], t.reverse());
        assert(s =~= t.push(s.last()));
        assert(s.reverse().to_multiset() =~= s.to_multiset());
    }
}

/// For entries whose sizes all differ, sorting by size ascending and reversing gives the order
/// that sorting by size descending gives.
pub proof fn law_size_sort_reversal(s: Seq<NodeView>)
    requires
        forall|i: int, j: int| 0 <= i < s.len() && 0 <= j < s.len() && i != j ==> #[trigger] s[i].weight() != #[trigger] s[j].weight(),
    ensures
        sort_spec(s, Order::Size, false).reverse() == sort_spec(s, Order::SizeRev, false),
{
    broadcast use vstd::seq_lib::group_to_multiset_ensures;
    let a = sort_spec(s, Order::Size, false);
    let b = sort_spec(s, Order::SizeRev, false);
    let r = a.reverse();
    lemma_sort_sorted(s, Order::Size, false);
    lemma_sort_sorted(s, Order::SizeRev, false);
    lemma_sort_permutes(s, Order::Size, false);
    lemma_sort_permutes(s, Order::SizeRev, false);
    lemma_reverse_multiset(a);
    let n = a.len();
    assert(is_sorted(r, Order::SizeRev, false)) by {
        assert forall|i: int, j: int| 0 <= i < j < r.len() implies !precedes(#[trigger] r[j], #[trigger] r[i], Order::SizeRev, false) by {
            assert(r[i] == a[n - 1 - i] && r[j] == a[n - 1 - j]);
            assert(!precedes(a[n - 1 - i], a[n - 1 - j], Order::Size, false));
        }
    }
    assert forall|x: NodeView, y: NodeView| r.contains(x) && r.contains(y) && x != y implies precedes(
        x,
        y,
        Order::SizeRev,
        false,
    ) || precedes(y, x, Order::SizeRev, false) by {
        assert(r.to_multiset().count(x) > 0 && r.to_multiset().count(y) > 0);
        assert(s.contains(x) && s.contains(y));
        let i = choose|i: int| 0 <= i < s.len() && s[i] == x;
        let j = choose|j: int| 0 <= j < s.len() && s[j] == y;
        assert(s[i].weight() != s[j].weight());
    }
    lemma_sorted_unique(r, b, Order::SizeRev, false);
}

/// What assembly makes of one entry of a branch.
pub open spec fn assembled_one(
    buf: Map<PathView, Seq<NodeView>>,
    x: NodeView,
    order: Order,
    dirs_first: bool,
    fuel: nat,
) -> NodeView {
    if x.is_dir() {
        assembled(buf, x, order, dirs_first, fuel)
    } else {
        x
    }
}

proof fn lemma_each_as_map(
    buf: Map<PathView, Seq<NodeView>>,
    c: Seq<NodeView>,
    order: Order,
    dirs_first: bool,
    fuel: nat,
)
    ensures
        assembled_each(buf, c, order, dirs_first, fuel) == Seq::new(
            c.len(),
            |i: int| assembled_one(buf, c[i], order, dirs_first, fuel),
        ),
    decreases c.len(),
{
    if c.len() > 0 {
        lemma_each_as_map(buf, c.drop_last(), order, dirs_first, fuel);
    }
    assert(assembled_each(buf, c, order, dirs_first, fuel) =~= Seq::new(
        c.len(),
        |i: int| assembled_one(buf, c[i], order, dirs_first, fuel),
    ));
}

proof fn lemma_map_multiset(a: Seq<NodeView>, b: Seq<NodeView>, g: spec_fn(NodeView) -> NodeView)
    requires
        a.to_multiset() == b.to_multiset(),
    ensures
        Seq::new(a.len(), |i: int| g(a[i])).to_multiset() == Seq::new(b.len(), |i: int| g(b[i])).to_multiset(),
    decreases a.len(),
{
    broadcast use vstd::seq_lib::group_to_multiset_ensures;
    assert(a.to_multiset().len() == a.len());
    assert(b.to_multiset().len() == b.len());
    if a.len() == 0 {
        assert(Seq::new(a.len(), |i: int| g(a[i])) =~= Seq::new(b.len(), |i: int| g(b[i])));
    } else {
        let x = a.last();
        let a2 = a.drop_last();
        assert(a =~= a2.push(x));
        assert(a.contains(x));
        assert(a.to_multiset().count(x) > 0);
        assert(b.contains(x));
        let k = choose|k: int| 0 <= k < b.len() && b[k] == x;
        let b2 = b.remove(k);
        assert(a2.to_multiset() =~= b2.to_multiset());
        lemma_map_multiset(a2, b2, g);
        let ma = Seq::new(a.len(), |i: int| g(a[i]));
        let mb = Seq::new(b.len(), |i: int| g(b[i]));
        let ma2 = Seq::new(a2.len(), |i: int| g(a2[i]));
        let mb2 = Seq::new(b2.len(), |i: int| g(b2[i]));
        assert(ma =~= ma2.push(g(x)));
        assert(mb =~= mb2.insert(k, g(x)));
    }
}

proof fn lemma_children_in_count(s: Seq<NodeView>, p: PathView, v: NodeView)
    ensures
        children_in(s, p).to_multiset().count(v) == if v.is_child_of(p) {
            s.to_multiset().count(v)
        } else {
            0
        },
    decreases s.len(),
{
    broadcast use vstd::seq_lib::group_to_multiset_ensures;
    if s.len() > 0 {
        let t = s.drop_last();
        lemma_children_in_count(t, p, v);
        assert(s =~= t.push(s.last()));
    } else {
        assert(children_in(s, p).to_multiset() =~= Multiset::empty());
        assert(s.to_multiset() =~= Multiset::empty());
    }
}

proof fn lemma_path_bound_witness(s: Seq<NodeView>)
    ensures
        s.len() == 0 ==> path_bound(s) == 0,
        s.len() > 0 ==> exists|i: int| 0 <= i < s.len() && path_bound(s) == s[i].path.len() + 1,
    decreases s.len(),
{
    if s.len() > 0 {
        let t = s.drop_last();
        lemma_path_bound_witness(t);
        if t.len() > 0 && path_bound(t) >= s.last().path.len() + 1 {
            let i = choose|i: int| 0 <= i < t.len() && path_bound(t) == t[i].path.len() + 1;
            assert(s[i] == t[i]);
        } else {
            assert(s[s.len() - 1] == s.last());
        }
    }
}

/// The branches of `b1` and `b2` are for the same paths and hold the same entries, maybe in
/// another order.
pub open spec fn same_branches(b1: Map<PathView, Seq<NodeView>>, b2: Map<PathView, Seq<NodeView>>) -> bool {
    &&& forall|k: PathView| #[trigger] b1.contains_key(k) == b2.contains_key(k)
    &&& forall|k: PathView| #[trigger] b1.contains_key(k) ==> b1[k].to_multiset() == b2[k].to_multiset()
}

/// No two entries of a branch share a name.
pub open spec fn distinct_names(buf: Map<PathView, Seq<NodeView>>) -> bool {
    forall|k: PathView, i: int, j: int|
        #![trigger buf[k][i], buf[k][j]]
        buf.contains_key(k) && 0 <= i < buf[k].len() && 0 <= j < buf[k].len() && i != j
            ==> buf[k][i].name != buf[k][j].name
}

proof fn lemma_assembled_same(
    b1: Map<PathView, Seq<NodeView>>,
    b2: Map<PathView, Seq<NodeView>>,
    e: NodeView,
    dirs_first: bool,
    fuel: nat,
)
    requires
        same_branches(b1, b2),
        distinct_names(b1),
    ensures
        assembled(b1, e, Order::Name, dirs_first, fuel) == assembled(b2, e, Order::Name, dirs_first, fuel),
    decreases fuel,
{
    broadcast use vstd::seq_lib::group_to_multiset_ensures;
    assert(b1.contains_key(e.path) == b2.contains_key(e.path));
    if fuel > 0 && b1.contains_key(e.path) {
        let f = (fuel - 1) as nat;
        assert forall|x: NodeView| assembled(b1, x, Order::Name, dirs_first, f) == assembled(
            b2,
            x,
            Order::Name,
            dirs_first,
            f,
        ) by {
            lemma_assembled_same(b1, b2, x, dirs_first, f);
        }
        let c1 = b1[e.path];
        let c2 = b2[e.path];
        let g = |x: NodeView| assembled_one(b1, x, Order::Name, dirs_first, f);
        lemma_each_as_map(b1, c1, Order::Name, dirs_first, f);
        lemma_each_as_map(b2, c2, Order::Name, dirs_first, f);
        let k1 = assembled_each(b1, c1, Order::Name, dirs_first, f);
        let k2 = assembled_each(b2, c2, Order::Name, dirs_first, f);
        assert(k1 =~= Seq::new(c1.len(), |i: int| g(c1[i])));
        assert(k2 =~= Seq::new(c2.len(), |i: int| g(c2[i])));
        lemma_map_multiset(c1, c2, g);
        let s1 = sort_spec(k1, Order::Name, dirs_first);
        let s2 = sort_spec(k2, Order::Name, dirs_first);
        lemma_sort_sorted(k1, Order::Name, dirs_first);
        lemma_sort_sorted(k2, Order::Name, dirs_first);
        lemma_sort_permutes(k1, Order::Name, dirs_first);
        lemma_sort_permutes(k2, Order::Name, dirs_first);
        assert forall|a: NodeView, b: NodeView| s1.contains(a) && s1.contains(b) && a != b implies precedes(
            a,
            b,
            Order::Name,
            dirs_first,
        ) || precedes(b, a, Order::Name, dirs_first) by {
            assert(s1.to_multiset().count(a) > 0 && s1.to_multiset().count(b) > 0);
            assert(k1.contains(a) && k1.contains(b));
            let i = choose|i: int| 0 <= i < k1.len() && k1[i] == a;
            let j = choose|j: int| 0 <= j < k1.len() && k1[j] == b;
            assert(a.name == c1[i].name && b.name == c1[j].name);
            assert(c1[i].name != c1[j].name);
            lemma_lex_total(a.name, b.name);
        }
        lemma_sorted_unique(s1, s2, Order::Name, dirs_first);
        lemma_total_sort(k1, Order::Name, dirs_first);
        lemma_total_sort(k2, Order::Name, dirs_first);
    }
}

/// Whether `s` holds exactly one entry at depth zero.
pub open spec fn single_root(s: Seq<NodeView>) -> bool {
    &&& exists|i: int| 0 <= i < s.len() && (#[trigger] s[i]).depth == 0
    &&& forall|i: int, j: int|
        0 <= i < s.len() && 0 <= j < s.len() && (#[trigger] s[i]).depth == 0 && (#[trigger] s[j]).depth == 0 ==> i == j
}

/// Each entry's name is the last component of its path.
pub open spec fn names_from_paths(s: Seq<NodeView>) -> bool {
    forall|i: int| 0 <= i < s.len() && (#[trigger] s[i]).path.len() > 0 ==> s[i].name == s[i].path.last()
}

/// Any reordering of a stream of entries — the same entries, with one root, distinct paths and
/// names that end their paths — assembles into the same tree when sorted by name.
pub proof fn law_order_independence(s1: Seq<NodeView>, s2: Seq<NodeView>, dirs_first: bool)
    requires
        s1.to_multiset() == s2.to_multiset(),
        unique_paths(s1),
        single_root(s1),
        names_from_paths(s1),
    ensures
        assembled(buffer_of(s1), root_of(s1)->0, Order::Name, dirs_first, path_bound(s1)) == assembled(
            buffer_of(s2),
            root_of(s2)->0,
            Order::Name,
            dirs_first,
            path_bound(s2),
        ),
{
    broadcast use vstd::seq_lib::group_to_multiset_ensures;
    // Every entry of one stream is an entry of the other.
    assert forall|v: NodeView| s1.contains(v) <==> s2.contains(v) by {
        vstd::seq_lib::to_multiset_contains(s1, v);
        vstd::seq_lib::to_multiset_contains(s2, v);
    }
    // The same root.
    lemma_root_absent(s1);
    lemma_root_absent(s2);
    let i0 = choose|i: int| 0 <= i < s1.len() && (#[trigger] s1[i]).depth == 0;
    assert(s1.contains(s1[i0]));
    assert(s2.contains(s1[i0]));
    let r1 = root_of(s1)->0;
    let r2 = root_of(s2)->0;
    assert(s1.contains(r2));
    let a = choose|a: int| 0 <= a < s1.len() && s1[a] == r1;
    let b = choose|b: int| 0 <= b < s1.len() && s1[b] == r2;
    assert(a == b);
    // The same bound on path lengths.
    lemma_path_bound(s1);
    lemma_path_bound(s2);
    lemma_path_bound_witness(s1);
    lemma_path_bound_witness(s2);
    assert(s1.len() == s2.len()) by {
        assert(s1.to_multiset().len() == s1.len());
        assert(s2.to_multiset().len() == s2.len());
    }
    if s1.len() > 0 {
        let w1 = choose|i: int| 0 <= i < s1.len() && path_bound(s1) == s1[i].path.len() + 1;
        let w2 = choose|i: int| 0 <= i < s2.len() && path_bound(s2) == s2[i].path.len() + 1;
        assert(s2.contains(s1[w1]));
        assert(s1.contains(s2[w2]));
        let x1 = choose|i: int| 0 <= i < s2.len() && s2[i] == s1[w1];
        let x2 = choose|i: int| 0 <= i < s1.len() && s1[i] == s2[w2];
        assert(s2[x1].path.len() < path_bound(s2));
        assert(s1[x2].path.len() < path_bound(s1));
    }
    // The same branches, up to the order inside each.
    let b1 = buffer_of(s1);
    let b2 = buffer_of(s2);
    assert forall|k: PathView| #[trigger] b1.contains_key(k) == b2.contains_key(k) by {
        if b1.contains_key(k) {
            let i = choose|i: int| 0 <= i < s1.len() && opens_branch(s1[i], k);
            assert(s2.contains(s1[i]));
            let j = choose|j: int| 0 <= j < s2.len() && s2[j] == s1[i];
            assert(opens_branch(s2[j], k));
        }
        if b2.contains_key(k) {
            let i = choose|i: int| 0 <= i < s2.len() && opens_branch(s2[i], k);
            assert(s1.contains(s2[i]));
            let j = choose|j: int| 0 <= j < s1.len() && s1[j] == s2[i];
            assert(opens_branch(s1[j], k));
        }
    }
    assert forall|k: PathView| #[trigger] b1.contains_key(k) implies b1[k].to_multiset() == b2[k].to_multiset() by {
        assert forall|v: NodeView| b1[k].to_multiset().count(v) == b2[k].to_multiset().count(v) by {
            lemma_children_in_count(s1, k, v);
            lemma_children_in_count(s2, k, v);
        }
        assert(b1[k].to_multiset() =~= b2[k].to_multiset());
    }
    // No two entries of a branch share a name.
    lemma_buffer_ready(s1, r1.path);
    assert forall|k: PathView, i: int, j: int|
        b1.contains_key(k) && 0 <= i < b1[k].len() && 0 <= j < b1[k].len() && i != j implies #[trigger] b1[k][i].name
        != #[trigger] b1[k][j].name by {
        lemma_children_in_shape(s1, k);
        let x = b1[k][i];
        let y = b1[k][j];
        assert(x.path != y.path);
        let xi = choose|t: int| 0 <= t < s1.len() && s1[t] == x;
        let yi = choose|t: int| 0 <= t < s1.len() && s1[t] == y;
        assert(x.name == x.path.last() && y.name == y.path.last());
        assert(x.path =~= x.path.subrange(0, k.len() as int).push(x.path.last()));
        assert(y.path =~= y.path.subrange(0, k.len() as int).push(y.path.last()));
    }
    lemma_assembled_same(b1, b2, r1, dirs_first, path_bound(s1));
}

/// No node below `n` has depth zero.
pub open spec fn depths_below_nonzero(n: NodeView) -> bool
    decreases n,
{
    forall|i: int|
        0 <= i < n.children.len() ==> (#[trigger] n.children[i]).depth != 0 && (n.children[i].is_dir()
            ==> depths_below_nonzero(n.children[i]))
}

pub open spec fn buffer_below_root(buf: Map<PathView, Seq<NodeView>>) -> bool {
    forall|k: PathView, i: int| buf.contains_key(k) && 0 <= i < buf[k].len() ==> (#[trigger] buf[k][i]).depth != 0
}

proof fn lemma_each_nonzero(
    buf: Map<PathView, Seq<NodeView>>,
    cs: Seq<NodeView>,
    order: Order,
    dirs_first: bool,
    fuel: nat,
)
    requires
        buffer_below_root(buf),
        forall|j: int| 0 <= j < cs.len() ==> (#[trigger] cs[j]).depth != 0,
    ensures
        assembled_each(buf, cs, order, dirs_first, fuel).len() == cs.len(),
        forall|j: int|
            0 <= j < cs.len() ==> (#[trigger] assembled_each(buf, cs, order, dirs_first, fuel)[j]).depth != 0
                && (assembled_each(buf, cs, order, dirs_first, fuel)[j].is_dir() ==> depths_below_nonzero(
                assembled_each(buf, cs, order, dirs_first, fuel)[j],
            )),
    decreases fuel, cs.len(),
{
    if cs.len() > 0 {
        let t = cs.drop_last();
        assert forall|j: int| 0 <= j < t.len() implies (#[trigger] t[j]).depth != 0 by {
            assert(t[j] == cs[j]);
        }
        lemma_each_nonzero(buf, t, order, dirs_first, fuel);
        let c = cs.last();
        assert(c == cs[cs.len() - 1]);
        if c.is_dir() {
            lemma_node_nonzero(buf, c, order, dirs_first, fuel);
        }
        let prev = assembled_each(buf, t, order, dirs_first, fuel);
        let all = assembled_each(buf, cs, order, dirs_first, fuel);
        assert forall|j: int| 0 <= j < cs.len() implies (#[trigger] all[j]).depth != 0 && (all[j].is_dir()
            ==> depths_below_nonzero(all[j])) by {
            if j < t.len() {
                assert(all[j] == prev[j]);
                assert(t[j] == cs[j]);
            }
        }
    }
}

proof fn lemma_node_nonzero(
    buf: Map<PathView, Seq<NodeView>>,
    e: NodeView,
    order: Order,
    dirs_first: bool,
    fuel: nat,
)
    requires
        buffer_below_root(buf),
    ensures
        depths_below_nonzero(assembled(buf, e, order, dirs_first, fuel)),
    decreases fuel, 0nat,
{
    broadcast use vstd::seq_lib::group_to_multiset_ensures;
    let has = fuel > 0 && buf.contains_key(e.path);
    let kids = if has {
        assembled_each(buf, buf[e.path], order, dirs_first, (fuel - 1) as nat)
    } else {
        Seq::empty()
    };
    if has {
        let cs = buf[e.path];
        assert forall|j: int| 0 <= j < cs.len() implies (#[trigger] cs[j]).depth != 0 by {
            assert(buf[e.path][j].depth != 0);
        }
        lemma_each_nonzero(buf, cs, order, dirs_first, (fuel - 1) as nat);
    }
    let sorted = sort_spec(kids, order, dirs_first);
    lemma_sort_permutes(kids, order, dirs_first);
    let a = assembled(buf, e, order, dirs_first, fuel);
    assert(a.children == sorted);
    assert forall|i: int| 0 <= i < a.children.len() implies (#[trigger] a.children[i]).depth != 0 && (
    a.children[i].is_dir() ==> depths_below_nonzero(a.children[i])) by {
        assert(sorted.to_multiset().contains(sorted[i]));
        assert(kids.contains(sorted[i]));
        let j = choose|j: int| 0 <= j < kids.len() && kids[j] == sorted[i];
    }
}

/// The tree built from a stream has its root at depth zero and no other node at depth zero.
pub proof fn law_single_depth_zero(s: Seq<NodeView>, order: Order, dirs_first: bool)
    requires
        root_of(s) is Some,
    ensures
        assembled(buffer_of(s), root_of(s)->0, order, dirs_first, path_bound(s)).depth == 0,
        depths_below_nonzero(assembled(buffer_of(s), root_of(s)->0, order, dirs_first, path_bound(s))),
{
    let buf = buffer_of(s);
    lemma_root_absent(s);
    assert forall|k: PathView, i: int| buf.contains_key(k) && 0 <= i < buf[k].len() implies (#[trigger] buf[k][i]).depth
        != 0 by {
        lemma_children_in_shape(s, k);
        assert(buf[k][i].is_child_of(k));
    }
    lemma_node_nonzero(buf, root_of(s)->0, order, dirs_first, path_bound(s));
}

proof fn lemma_sum_element(s: Seq<nat>, j: int)
    requires
        0 <= j < s.len(),
    ensures
        sum(s) >= s[j],
    decreases s.len(),
{
    if j < s.len() - 1 {
        lemma_sum_element(s.drop_last(), j);
        assert(s.drop_last()[j] == s[j]);
    }
}

proof fn lemma_nonempty_counts(m: NodeView)
    requires
        no_empty_dirs(m),
    ensures
        m.children.len() > 0 <==> file_count(m) > 0,
    decreases m,
{
    let cc = child_counts(m);
    if m.children.len() > 0 {
        let c = m.children[0];
        if c.is_dir() {
            assert(survives(c));
            lemma_nonempty_counts(c);
        }
        assert(cc[0] > 0);
        lemma_sum_element(cc, 0);
    } else {
        assert(cc.len() == 0);
    }
}

proof fn lemma_survivors_keep(s: Seq<NodeView>, i: int)
    requires
        0 <= i < s.len(),
        survives(s[i]),
    ensures
        survivors(s).contains(s[i]),
    decreases s.len(),
{
    let t = s.drop_last();
    if i < s.len() - 1 {
        assert(t[i] == s[i]);
        lemma_survivors_keep(t, i);
        let k = choose|k: int| 0 <= k < survivors(t).len() && survivors(t)[k] == s[i];
        if survives(s.last()) {
            assert(survivors(s)[k] == s[i]);
        }
    } else {
        assert(s[i] == s.last());
        assert(survivors(s)[survivors(t).len() as int] == s[i]);
    }
}

/// Pruning keeps a child of `n` exactly when it is not a directory or its subtree holds an entry
/// that is not a directory; every child that is not a directory stays, unchanged, under `n`.
pub proof fn law_prune_keeps_files(n: NodeView)
    ensures
        forall|i: int|
            0 <= i < n.children.len() ==> (survives(#[trigger] pruned_kids(n)[i]) <==> (!n.children[i].is_dir()
                || file_count(n.children[i]) > 0)),
        forall|i: int|
            0 <= i < n.children.len() && !(#[trigger] n.children[i]).is_dir() ==> pruned(n).children.contains(
                n.children[i],
            ),
{
    let pk = pruned_kids(n);
    assert forall|i: int| 0 <= i < n.children.len() implies (survives(#[trigger] pk[i]) <==> (!n.children[i].is_dir()
        || file_count(n.children[i]) > 0)) by {
        let c = n.children[i];
        if c.is_dir() {
            assert(decreases_to!(n => n.children));
            lemma_prune(c);
            lemma_nonempty_counts(pruned(c));
        }
    }
    assert forall|i: int| 0 <= i < n.children.len() && !(#[trigger] n.children[i]).is_dir() implies pruned(
        n,
    ).children.contains(n.children[i]) by {
        assert(pk[i] == n.children[i]);
        lemma_survivors_keep(pk, i);
    }
}

} // verus!
