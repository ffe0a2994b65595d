use vstd::prelude::*;

use crate::node::{Node, NodeView, lemma_view_children, view_path};
use crate::render::{allows, icon_text, lower, opt_level, painted, size_part, string_views, SizeLocation};
use crate::tree::Tree;

verus! {

/// Path components joined by `/`.
pub open spec fn join(cs: Seq<Seq<char>>) -> Seq<char>
    decreases cs.len(),
{
    if cs.len() == 0 {
        Seq::empty()
    } else if cs.len() == 1 {
        cs[0]
    } else {
        join(cs.drop_last()) + seq!['/'] + cs.last()
    }
}

/// The path of `n` below a root whose path has `base` components; the root itself goes by its
/// name.
pub open spec fn rel_path(n: NodeView, base: nat) -> Seq<char> {
    if n.path.len() <= base {
        n.name
    } else {
        join(n.path.subrange(base as int, n.path.len() as int))
    }
}

/// The report line of one node: its size in the left-aligned column, then its icon if it has
/// one, then its styled path.
pub open spec fn flat_line(n: NodeView, base: nat, scale: nat) -> Seq<char> {
    size_part(n, SizeLocation::Left, scale) + seq![' '] + icon_text(n) + painted(n.style, rel_path(n, base))
}

/// The report lines for the children of `n` from the `i`-th on and what lies below them,
/// depth-first, with `rem` levels below these children still shown.
pub open spec fn flat_kids(n: NodeView, base: nat, rem: Option<nat>, scale: nat, i: nat) -> Seq<Seq<char>>
    decreases n, n.children.len() - i,
{
    if i >= n.children.len() {
        Seq::empty()
    } else {
        let c = n.children[i as int];
        let below = if c.is_dir() && allows(rem) {
            flat_kids(c, base, lower(rem), scale, 0)
        } else {
            Seq::empty()
        };
        seq![flat_line(c, base, scale)] + below + flat_kids(n, base, rem, scale, i + 1)
    }
}

/// Every report line of the tree under `root`, down to depth `level` when there is one.
pub open spec fn flat_lines(root: NodeView, level: Option<nat>, scale: nat) -> Seq<Seq<char>> {
    let base = root.path.len();
    seq![flat_line(root, base, scale)] + if allows(level) {
        flat_kids(root, base, lower(level), scale, 0)
    } else {
        Seq::empty()
    }
}

/// The components of `p` from the `base`-th on, joined by `/`; the name when there are none.
fn relative_path(p: &Vec<String>, name: &String, base: usize) -> (r: String)
    ensures
        r@ == (if view_path(p@).len() <= base {
            name@
        } else {
            join(view_path(p@).subrange(base as int, p@.len() as int))
        }),
{
    let ghost v = view_path(p@);
    if p.len() <= base {
        return name.clone();
    }
    let mut r = p[base].clone();
    let mut i: usize = base + 1;
    proof {
        assert(v.subrange(base as int, i as int) =~= seq![v[base as int]]);
    }
    while i < p.len()
        invariant
            base < i <= p.len(),
            v == view_path(p@),
            r@ == join(v.subrange(base as int, i as int)),
        decreases p.len() - i,
    {
        proof {
            reveal_strlit("/");
            let next = v.subrange(base as int, i + 1);
            assert(next.drop_last() =~= v.subrange(base as int, i as int));
            assert(next.last() == p@[i as int]@);
        }
        r.append("/");
        r.append(p[i].as_str());
        i = i + 1;
    }
    r
}

/// The report line of `n` below a root whose path has `base` components.
pub fn flat_node_line(n: &Node, base: usize, scale: usize) -> (r: String)
    ensures
        r@ == flat_line(n@, base as nat, scale as nat),
{
    let mut r = match n.file_size {
        Some(b) => SizeLocation::Left.format(b, scale),
        None => SizeLocation::Left.default_string(scale),
    };
    proof {
        reveal_strlit(" ");
    }
    r.append(" ");
    if let Some(icon) = &n.icon {
        r.append(icon.as_str());
        r.append(" ");
    }
    let path = relative_path(&n.path, &n.file_name, base);
    r.append(n.style.prefix.as_str());
    r.append(path.as_str());
    r.append(n.style.suffix.as_str());
    proof {
        assert(r@ =~= flat_line(n@, base as nat, scale as nat));
    }
    r
}

#[verifier::rlimit(60)]
fn flat_children(n: &Node, base: usize, rem: Option<usize>, scale: usize, out: &mut Vec<String>)
    ensures
        string_views(final(out)@) == string_views(old(out)@) + flat_kids(
            n@,
            base as nat,
            opt_level(rem),
            scale as nat,
            0,
        ),
    decreases n@,
{
    let ghost start = string_views(out@);
    let ghost spec_rem = opt_level(rem);
    proof {
        lemma_view_children(*n);
    }
    let count = n.children.len();
    let mut i: usize = 0;
    while i < count
        invariant
            count == n.children@.len(),
            count == n@.children.len(),
            n@.children == crate::node::views(n.children@),
            0 <= i <= count,
            spec_rem == opt_level(rem),
            start + flat_kids(n@, base as nat, spec_rem, scale as nat, 0) == string_views(out@) + flat_kids(
                n@,
                base as nat,
                spec_rem,
                scale as nat,
                i as nat,
            ),
        decreases count - i,
    {
        let c = &n.children[i];
        let line = flat_node_line(c, base, scale);
        let ghost before = string_views(out@);
        out.push(line);
        proof {
            assert(string_views(out@) =~= before.push(line@));
            assert(c@ == n@.children[i as int]);
        }
        let ghost mid = string_views(out@);
        let is_dir = matches!(c.file_type, Some(crate::node::FileKind::Dir));
        let deeper = match rem {
            Some(r) => r >= 1,
            None => true,
        };
        if is_dir && deeper {
            let next_rem = match rem {
                Some(r) => Some(r - 1),
                None => None,
            };
            proof {
                assert(decreases_to!(n@ => n@.children));
                assert(decreases_to!(n@.children => n@.children[i as int]));
            }
            flat_children(c, base, next_rem, scale, out);
            proof {
                assert(opt_level(next_rem) == lower(spec_rem));
            }
        }
        proof {
            let c_v = n@.children[i as int];
            let below = if c_v.is_dir() && allows(spec_rem) {
                flat_kids(c_v, base as nat, lower(spec_rem), scale as nat, 0)
            } else {
                Seq::empty()
            };
            let rest = flat_kids(n@, base as nat, spec_rem, scale as nat, (i + 1) as nat);
            assert(flat_kids(n@, base as nat, spec_rem, scale as nat, i as nat) == seq![line@] + below + rest);
            assert(string_views(out@) == mid + below);
            assert(before + (seq![line@] + below + rest) =~= mid + below + rest);
        }
        i = i + 1;
    }
    proof {
        assert(string_views(out@) + flat_kids(n@, base as nat, spec_rem, scale as nat, count as nat)
            =~= string_views(out@));
    }
}

impl Tree {
    /// The report of the tree: one line per entry, depth-first down to the tree's level, each
    /// its size in a left-aligned column and its path below the root, with no connectors.
    pub fn render_flat(&self, scale: usize) -> (r: Vec<String>)
        ensures
            string_views(r@) == flat_lines(self.root@, opt_level(self.level), scale as nat),
    {
        let base = self.root.path.len();
        proof {
            assert(self.root@.path.len() == base);
        }
        let mut out: Vec<String> = Vec::new();
        let root_line = flat_node_line(&self.root, base, scale);
        out.push(root_line);
        let ghost first = string_views(out@);
        proof {
            assert(first =~= seq![root_line@]);
        }
        let deeper = match self.level {
            Some(l) => l >= 1,
            None => true,
        };
        if deeper {
            let rem = match self.level {
                Some(l) => Some(l - 1),
                None => None,
            };
            flat_children(&self.root, base, rem, scale, &mut out);
            proof {
                assert(opt_level(rem) == lower(opt_level(self.level)));
            }
        }
        proof {
            let tail = if allows(opt_level(self.level)) {
                flat_kids(self.root@, base as nat, lower(opt_level(self.level)), scale as nat, 0)
            } else {
                Seq::empty()
            };
            assert(string_views(out@) =~= first + tail);
        }
        out
    }
}

} // verus!
