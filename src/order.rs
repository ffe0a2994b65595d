use vstd::prelude::*;

use crate::cli::Order;
use crate::node::{Node, NodeView, views};

verus! {

/// Lexicographic order on strings, character by character by code point; a proper prefix comes
/// first.
pub open spec fn lex_less(a: Seq<char>, b: Seq<char>) -> bool
    decreases a.len(),
{
    if a.len() == 0 {
        b.len() > 0
    } else if b.len() == 0 {
        false
    } else if (a[0] as u32) == (b[0] as u32) {
        lex_less(a.drop_first(), b.drop_first())
    } else {
        (a[0] as u32) < (b[0] as u32)
    }
}

/// Whether `a` goes strictly before `b` among siblings: directories ahead of everything else when
/// `dirs_first` is set, then by the chosen order.
pub open spec fn precedes(a: NodeView, b: NodeView, order: Order, dirs_first: bool) -> bool {
    if dirs_first && a.is_dir() != b.is_dir() {
        a.is_dir()
    } else {
        match order {
            Order::Name => lex_less(a.name, b.name),
            Order::Size => a.weight() < b.weight(),
            Order::SizeRev => a.weight() > b.weight(),
            Order::Unsorted => false,
        }
    }
}

/// Places `x` after the leading entries of `r` that go strictly before it.
pub open spec fn insert_sorted(r: Seq<NodeView>, x: NodeView, order: Order, dirs_first: bool) -> Seq<
    NodeView,
>
    decreases r.len(),
{
    if r.len() == 0 {
        seq![x]
    } else if precedes(r[0], x, order, dirs_first) {
        seq![r[0]] + insert_sorted(r.drop_first(), x, order, dirs_first)
    } else {
        seq![x] + r
    }
}

/// The stable sort of `s`: entries that neither precedes keep their relative order. With
/// `Order::Unsorted` the sequence is left as it is.
pub open spec fn sort_spec(s: Seq<NodeView>, order: Order, dirs_first: bool) -> Seq<NodeView>
    decreases s.len(),
{
    if s.len() == 0 || order == Order::Unsorted {
        s
    } else {
        insert_sorted(sort_spec(s.drop_first(), order, dirs_first), s[0], order, dirs_first)
    }
}

/// No later entry goes strictly before an earlier one.
pub open spec fn is_sorted(s: Seq<NodeView>, order: Order, dirs_first: bool) -> bool {
    forall|i: int, j: int| 0 <= i < j < s.len() ==> !precedes(#[trigger] s[j], #[trigger] s[i], order, dirs_first)
}

proof fn lemma_lex_irreflexive(a: Seq<char>)
    ensures
        !lex_less(a, a),
    decreases a.len(),
{
    if a.len() > 0 {
        lemma_lex_irreflexive(a.drop_first());
    }
}

proof fn lemma_lex_transitive(a: Seq<char>, b: Seq<char>, c: Seq<char>)
    requires
        lex_less(a, b),
        lex_less(b, c),
    ensures
        lex_less(a, c),
    decreases a.len(),
{
    if a.len() > 0 && b.len() > 0 && c.len() > 0 && (a[0] as u32) == (b[0] as u32) && (b[0] as u32) == (c[0] as u32) {
        lemma_lex_transitive(a.drop_first(), b.drop_first(), c.drop_first());
    }
}

proof fn lemma_lex_not_less_transitive(a: Seq<char>, b: Seq<char>, c: Seq<char>)
    requires
        !lex_less(a, b),
        !lex_less(b, c),
    ensures
        !lex_less(a, c),
    decreases a.len(),
{
    if a.len() > 0 && b.len() > 0 && c.len() > 0 && (a[0] as u32) == (b[0] as u32) && (b[0] as u32) == (c[0] as u32) {
        lemma_lex_not_less_transitive(a.drop_first(), b.drop_first(), c.drop_first());
    }
}

proof fn lemma_char_code_injective(a: char, b: char)
    requires
        a != b,
    ensures
        (a as u32) != (b as u32),
{
}

/// Two different strings are ordered one way or the other.
pub proof fn lemma_lex_total(a: Seq<char>, b: Seq<char>)
    ensures
        a == b || lex_less(a, b) || lex_less(b, a),
    decreases a.len(),
{
    if a.len() > 0 && b.len() > 0 {
        if (a[0] as u32) == (b[0] as u32) {
            lemma_lex_total(a.drop_first(), b.drop_first());
            if a.drop_first() == b.drop_first() {
                if a[0] != b[0] {
                    lemma_char_code_injective(a[0], b[0]);
                }
                assert(a[0] == b[0]);
                assert(a =~= seq![a[0]] + a.drop_first());
                assert(b =~= seq![b[0]] + b.drop_first());
            }
        }
    } else if a.len() == 0 && b.len() == 0 {
        assert(a =~= b);
    }
}

/// `precedes` is a strict weak order: irreflexive, and not going before is transitive.
proof fn lemma_precedes_weak_order(a: NodeView, b: NodeView, c: NodeView, order: Order, dirs_first: bool)
    ensures
        !precedes(a, a, order, dirs_first),
        precedes(a, b, order, dirs_first) ==> !precedes(b, a, order, dirs_first),
        !precedes(a, b, order, dirs_first) && !precedes(b, c, order, dirs_first) ==> !precedes(a, c, order, dirs_first),
{
    lemma_lex_irreflexive(a.name);
    if order == Order::Name {
        if lex_less(a.name, b.name) && lex_less(b.name, a.name) {
            lemma_lex_transitive(a.name, b.name, a.name);
        }
        if !lex_less(a.name, b.name) && !lex_less(b.name, c.name) {
            lemma_lex_not_less_transitive(a.name, b.name, c.name);
        }
    }
}

proof fn lemma_insert_sorted_shape(r: Seq<NodeView>, x: NodeView, order: Order, dirs_first: bool)
    ensures
        insert_sorted(r, x, order, dirs_first).len() == r.len() + 1,
        insert_sorted(r, x, order, dirs_first).to_multiset() == r.to_multiset().insert(x),
    decreases r.len(),
{
    broadcast use vstd::seq_lib::group_to_multiset_ensures;
    if r.len() > 0 {
        if precedes(r[0], x, order, dirs_first) {
            let t = r.drop_first();
            lemma_insert_sorted_shape(t, x, order, dirs_first);
            vstd::seq_lib::lemma_multiset_commutative(seq![r[0]], insert_sorted(t, x, order, dirs_first));
            vstd::seq_lib::lemma_multiset_commutative(seq![r[0]], t);
            assert(r =~= seq![r[0]] + t);
        } else {
            vstd::seq_lib::lemma_multiset_commutative(seq![x], r);
        }
    }
}

/// The sort keeps every entry: same length, same multiset.
pub proof fn lemma_sort_permutes(s: Seq<NodeView>, order: Order, dirs_first: bool)
    ensures
        sort_spec(s, order, dirs_first).len() == s.len(),
        sort_spec(s, order, dirs_first).to_multiset() == s.to_multiset(),
    decreases s.len(),
{
    broadcast use vstd::seq_lib::group_to_multiset_ensures;
    if s.len() > 0 && order != Order::Unsorted {
        let t = s.drop_first();
        lemma_sort_permutes(t, order, dirs_first);
        lemma_insert_sorted_shape(sort_spec(t, order, dirs_first), s[0], order, dirs_first);
        vstd::seq_lib::lemma_multiset_commutative(seq![s[0]], t);
        assert(s =~= seq![s[0]] + t);
    }
}

proof fn lemma_insert_keeps_sorted(r: Seq<NodeView>, x: NodeView, order: Order, dirs_first: bool)
    requires
        is_sorted(r, order, dirs_first),
    ensures
        is_sorted(insert_sorted(r, x, order, dirs_first), order, dirs_first),
    decreases r.len(),
{
    broadcast use vstd::seq_lib::group_to_multiset_ensures;
    let out = insert_sorted(r, x, order, dirs_first);
    lemma_insert_sorted_shape(r, x, order, dirs_first);
    if r.len() > 0 {
        if precedes(r[0], x, order, dirs_first) {
            let t = r.drop_first();
            let rest = insert_sorted(t, x, order, dirs_first);
            assert(is_sorted(t, order, dirs_first)) by {
                assert forall|i: int, j: int| 0 <= i < j < t.len() implies !precedes(#[trigger] t[j], #[trigger] t[i], order, dirs_first) by {
                    assert(t[j] == r[j + 1] && t[i] == r[i + 1]);
                }
            }
            lemma_insert_keeps_sorted(t, x, order, dirs_first);
            lemma_insert_sorted_shape(t, x, order, dirs_first);
            assert forall|i: int, j: int| 0 <= i < j < out.len() implies !precedes(#[trigger] out[j], #[trigger] out[i], order, dirs_first) by {
                if i == 0 {
                    assert(out[i] == r[0]);
                    assert(out[j] == rest[j - 1]);
                    assert(rest.to_multiset().contains(rest[j - 1]));
                    assert(t.to_multiset().insert(x).contains(out[j]));
                    if out[j] == x {
                        lemma_precedes_weak_order(r[0], x, x, order, dirs_first);
                    } else {
                        assert(t.to_multiset().contains(out[j]));
                        let k = choose|k: int| 0 <= k < t.len() && t[k] == out[j];
                        assert(r[k + 1] == t[k]);
                    }
                } else {
                    assert(out[i] == rest[i - 1]);
                    assert(out[j] == rest[j - 1]);
                }
            }
        } else {
            assert forall|i: int, j: int| 0 <= i < j < out.len() implies !precedes(#[trigger] out[j], #[trigger] out[i], order, dirs_first) by {
                if i == 0 {
                    assert(out[j] == r[j - 1]);
                    if j - 1 > 0 {
                        assert(!precedes(r[j - 1], r[0], order, dirs_first));
                    }
                    lemma_precedes_weak_order(r[j - 1], r[0], x, order, dirs_first);
                } else {
                    assert(out[i] == r[i - 1]);
                    assert(out[j] == r[j - 1]);
                }
            }
        }
    }
}

/// The sort's result is in order.
pub proof fn lemma_sort_sorted(s: Seq<NodeView>, order: Order, dirs_first: bool)
    requires
        order != Order::Unsorted,
    ensures
        is_sorted(sort_spec(s, order, dirs_first), order, dirs_first),
    decreases s.len(),
{
    if s.len() > 0 {
        lemma_sort_sorted(s.drop_first(), order, dirs_first);
        lemma_insert_keeps_sorted(sort_spec(s.drop_first(), order, dirs_first), s[0], order, dirs_first);
    }
}

/// Sorting a sequence that is already in order leaves it as it is.
pub proof fn lemma_sort_of_sorted(s: Seq<NodeView>, order: Order, dirs_first: bool)
    requires
        is_sorted(s, order, dirs_first),
    ensures
        sort_spec(s, order, dirs_first) == s,
    decreases s.len(),
{
    if s.len() > 0 && order != Order::Unsorted {
        let t = s.drop_first();
        assert(is_sorted(t, order, dirs_first)) by {
            assert forall|i: int, j: int| 0 <= i < j < t.len() implies !precedes(#[trigger] t[j], #[trigger] t[i], order, dirs_first) by {
                assert(t[j] == s[j + 1] && t[i] == s[i + 1]);
            }
        }
        lemma_sort_of_sorted(t, order, dirs_first);
        if t.len() > 0 {
            assert(t[0] == s[1]);
        }
        assert(s =~= seq![s[0]] + t);
    }
}

/// Whether `a` comes before `b` in `lex_less` order.
fn str_less(a: &str, b: &str) -> (r: bool)
    ensures
        r == lex_less(a@, b@),
{
    let an = a.unicode_len();
    let bn = b.unicode_len();
    let mut i: usize = 0;
    proof {
        assert(a@.subrange(0, an as int) =~= a@);
        assert(b@.subrange(0, bn as int) =~= b@);
    }
    while i < an && i < bn
        invariant
            an == a@.len(),
            bn == b@.len(),
            i <= an && i <= bn,
            lex_less(a@, b@) == lex_less(a@.subrange(i as int, an as int), b@.subrange(i as int, bn as int)),
        decreases an - i,
    {
        let ca = a.get_char(i);
        let cb = b.get_char(i);
        let ghost sa = a@.subrange(i as int, an as int);
        let ghost sb = b@.subrange(i as int, bn as int);
        proof {
            assert(sa[0] == ca && sb[0] == cb);
        }
        if ca != cb {
            proof {
                lemma_char_code_injective(ca, cb);
            }
            return (ca as u32) < (cb as u32);
        }
        proof {
            assert(sa.drop_first() =~= a@.subrange(i + 1, an as int));
            assert(sb.drop_first() =~= b@.subrange(i + 1, bn as int));
        }
        i = i + 1;
    }
    an < bn
}

/// Whether `a` goes strictly before `b` among siblings.
pub fn node_precedes(a: &Node, b: &Node, order: Order, dirs_first: bool) -> (r: bool)
    ensures
        r == precedes(a@, b@, order, dirs_first),
{
    let a_dir = matches!(a.file_type, Some(crate::node::FileKind::Dir));
    let b_dir = matches!(b.file_type, Some(crate::node::FileKind::Dir));
    if dirs_first && a_dir != b_dir {
        return a_dir;
    }
    let a_size: u64 = match a.file_size {
        Some(s) => s,
        None => 0,
    };
    let b_size: u64 = match b.file_size {
        Some(s) => s,
        None => 0,
    };
    match order {
        Order::Name => str_less(a.file_name.as_str(), b.file_name.as_str()),
        Order::Size => a_size < b_size,
        Order::SizeRev => a_size > b_size,
        Order::Unsorted => false,
    }
}

proof fn lemma_views_insert(s: Seq<Node>, i: int, x: Node)
    requires
        0 <= i <= s.len(),
    ensures
        views(s.insert(i, x)) == views(s).insert(i, x@),
{
    assert(views(s.insert(i, x)) =~= views(s).insert(i, x@));
}

/// Inserts `x` into `v` after the leading entries that go strictly before it.
fn insert_node(v: &mut Vec<Node>, x: Node, order: Order, dirs_first: bool)
    ensures
        views(final(v)@) == insert_sorted(views(old(v)@), x@, order, dirs_first),
{
    let ghost r = views(v@);
    let mut j: usize = 0;
    proof {
        assert(r.subrange(0, r.len() as int) =~= r);
        assert(r.subrange(0, 0) + insert_sorted(r, x@, order, dirs_first) =~= insert_sorted(r, x@, order, dirs_first));
    }
    while j < v.len() && node_precedes(&v[j], &x, order, dirs_first)
        invariant
            0 <= j <= v.len(),
            r == views(v@),
            insert_sorted(r, x@, order, dirs_first) == r.subrange(0, j as int) + insert_sorted(
                r.subrange(j as int, r.len() as int),
                x@,
                order,
                dirs_first,
            ),
        decreases v.len() - j,
    {
        proof {
            let t = r.subrange(j as int, r.len() as int);
            assert(t.drop_first() =~= r.subrange(j + 1, r.len() as int));
            assert(r.subrange(0, j + 1) =~= r.subrange(0, j as int) + seq![t[0]]);
        }
        j = j + 1;
    }
    proof {
        assert(r.subrange(j as int, r.len() as int) =~= views(v@).subrange(j as int, r.len() as int));
        assert(r.subrange(0, r.len() as int) =~= r);
    }
    proof {
        lemma_views_insert(v@, j as int, x);
    }
    v.insert(j, x);
    proof {
        let t = r.subrange(j as int, r.len() as int);
        assert(r.insert(j as int, x@) =~= r.subrange(0, j as int) + (seq![x@] + t));
        if j as int == r.len() {
            assert(t =~= Seq::<NodeView>::empty());
            assert(seq![x@] + t =~= seq![x@]);
        }
    }
}

/// Sorts `nodes` stably by `order`, directories first when `dirs_first` is set; leaves them as
/// they are with `Order::Unsorted`. This is an insertion sort: quadratic in the number of nodes.
pub fn sort_nodes(nodes: Vec<Node>, order: Order, dirs_first: bool) -> (r: Vec<Node>)
    ensures
        views(r@) == sort_spec(views(nodes@), order, dirs_first),
{
    if matches!(order, Order::Unsorted) {
        return nodes;
    }
    let ghost s = views(nodes@);
    let mut rest = nodes;
    let mut out: Vec<Node> = Vec::new();
    proof {
        assert(s.subrange(s.len() as int, s.len() as int) =~= Seq::<NodeView>::empty());
        assert(views(out@) =~= Seq::<NodeView>::empty());
    }
    while rest.len() > 0
        invariant
            views(rest@) == s.subrange(0, rest.len() as int),
            rest.len() <= s.len(),
            views(out@) == sort_spec(s.subrange(rest.len() as int, s.len() as int), order, dirs_first),
            order != Order::Unsorted,
        decreases rest.len(),
    {
        let ghost k = rest.len() as int;
        let ghost before = rest@;
        let x = rest.pop().unwrap();
        proof {
            assert(x == before[k - 1]);
            assert(views(before)[k - 1] == s.subrange(0, k)[k - 1]);
            assert(views(rest@) =~= s.subrange(0, k - 1));
            assert(x@ == s[k - 1]);
            let t = s.subrange(k - 1, s.len() as int);
            assert(t.drop_first() =~= s.subrange(k, s.len() as int));
            assert(t[0] == x@);
        }
        insert_node(&mut out, x, order, dirs_first);
    }
    proof {
        assert(s.subrange(0, s.len() as int) =~= s);
    }
    out
}

} // verus!
