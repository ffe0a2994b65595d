use vstd::prelude::*;

use crate::node::{Node, NodeView, lemma_view_children};
use crate::size::{effective_scale, format_size, size_text, MAX_SCALE};
use crate::tree::Tree;

verus! {

/// Used for padding between tree branches.
pub const SEP: &'static str = "   ";

/// The `│` box drawing character.
pub const VT: &'static str = "\u{2502}  ";

/// The `┌─` box drawing character.
pub const DRT: &'static str = "\u{250C}\u{2500} ";

/// The `└─` box drawing characters.
pub const UPRT: &'static str = "\u{2514}\u{2500} ";

/// The `├─` box drawing characters.
pub const VTRT: &'static str = "\u{251C}\u{2500} ";

/// The box-drawing pieces a tree is drawn with, styled or not.
pub struct Theme {
    pub vt: String,
    pub uprt: String,
    pub drt: String,
    pub vtrt: String,
}

/// The themes for the branches of the tree and for the descendants of symlinks.
pub struct Themes {
    pub tree: Theme,
    pub link: Theme,
}

/// The theme pieces that rendering uses: vertical continuation, last-sibling and
/// non-last-sibling connectors.
pub ghost struct ThemeView {
    pub vt: Seq<char>,
    pub uprt: Seq<char>,
    pub vtrt: Seq<char>,
}

pub open spec fn theme_view(t: Theme) -> ThemeView {
    ThemeView { vt: t.vt@, uprt: t.uprt@, vtrt: t.vtrt@ }
}

fn plain_theme() -> (r: Theme)
    ensures
        r.vt@ == VT@,
        r.uprt@ == UPRT@,
        r.drt@ == DRT@,
        r.vtrt@ == VTRT@,
{
    Theme { vt: copy_str(VT), uprt: copy_str(UPRT), drt: copy_str(DRT), vtrt: copy_str(VTRT) }
}

/// Colourless themes.
pub fn init_plain() -> (r: Themes)
    ensures
        r.tree.vt@ == VT@ && r.tree.uprt@ == UPRT@ && r.tree.drt@ == DRT@ && r.tree.vtrt@ == VTRT@,
        r.link.vt@ == VT@ && r.link.uprt@ == UPRT@ && r.link.drt@ == DRT@ && r.link.vtrt@ == VTRT@,
{
    Themes { tree: plain_theme(), link: plain_theme() }
}

/// Getter for the tree theme.
pub fn get_tree_theme(themes: &Themes) -> (r: &Theme)
    ensures
        r == &themes.tree,
{
    &themes.tree
}

/// Getter for the theme of the descendants of symlinks.
pub fn get_link_theme(themes: &Themes) -> (r: &Theme)
    ensures
        r == &themes.link,
{
    &themes.link
}

/// The type of data that a cell of a long-view row renders.
#[derive(Clone, Debug)]
pub enum Kind {
    FileName { prefix: Option<String> },
    FilePath,
    FileSize,
    Datetime,
    Ino,
    Nlink,
    Permissions,
    Owner,
    Group,
}

/// Where a node's size goes on its line.
#[derive(Clone, Copy, Debug, PartialEq, Eq, Structural)]
pub enum SizeLocation {
    /// After the name, in parentheses.
    Right,
    /// Before the prefix, right-aligned in a column of fixed width.
    Left,
}

/// The width of the size column when sizes go on the left.
pub open spec fn size_width(scale: nat) -> nat {
    9 + effective_scale(scale)
}

pub open spec fn spaces(n: nat) -> Seq<char> {
    Seq::new(n, |i: int| ' ')
}

/// `s` preceded by spaces up to `width` characters.
pub open spec fn pad_left(s: Seq<char>, width: nat) -> Seq<char> {
    if s.len() >= width {
        s
    } else {
        spaces((width - s.len()) as nat) + s
    }
}

pub open spec fn size_format(loc: SizeLocation, b: nat, scale: nat) -> Seq<char> {
    match loc {
        SizeLocation::Right => seq!['('] + size_text(b, scale) + seq![')'],
        SizeLocation::Left => pad_left(size_text(b, scale), size_width(scale)),
    }
}

pub open spec fn size_default(loc: SizeLocation, scale: nat) -> Seq<char> {
    match loc {
        SizeLocation::Right => Seq::empty(),
        SizeLocation::Left => spaces(size_width(scale)),
    }
}

impl SizeLocation {
    /// The text shown in place of a size for a node that has none.
    pub fn default_string(self, scale: usize) -> (r: String)
        ensures
            r@ == size_default(self, scale as nat),
    {
        match self {
            SizeLocation::Right => {
                let r = String::new();
                r
            },
            SizeLocation::Left => {
                let width: usize = 9 + if scale > MAX_SCALE {
                    MAX_SCALE
                } else {
                    scale
                };
                let mut r = String::new();
                push_spaces(&mut r, width);
                proof {
                    assert(r@ =~= spaces(size_width(scale as nat)));
                }
                r
            },
        }
    }

    /// The size `bytes` as it is shown at this location.
    pub fn format(self, bytes: u64, scale: usize) -> (r: String)
        ensures
            r@ == size_format(self, bytes as nat, scale as nat),
    {
        let text = format_size(bytes, scale);
        match self {
            SizeLocation::Right => {
                let mut r = copy_str("(");
                r.append(text.as_str());
                r.append(")");
                proof {
                    reveal_strlit("(");
                    reveal_strlit(")");
                }
                r
            },
            SizeLocation::Left => {
                let width: usize = 9 + if scale > MAX_SCALE {
                    MAX_SCALE
                } else {
                    scale
                };
                let len = text.as_str().unicode_len();
                let mut r = String::new();
                if len < width {
                    push_spaces(&mut r, width - len);
                }
                r.append(text.as_str());
                proof {
                    if len < width {
                        assert(r@ =~= spaces((width - len) as nat) + text@);
                    } else {
                        assert(r@ =~= text@);
                    }
                }
                r
            },
        }
    }
}

/// An owned copy of `s`.
fn copy_str(s: &str) -> (r: String)
    ensures
        r@ == s@,
{
    proof {
        broadcast use vstd::string::to_string_from_display_ensures_for_str;
    }
    s.to_string()
}

fn push_spaces(r: &mut String, n: usize)
    ensures
        final(r)@ == old(r)@ + spaces(n as nat),
{
    let ghost start = r@;
    let mut i: usize = 0;
    while i < n
        invariant
            0 <= i <= n,
            r@ == start + spaces(i as nat),
        decreases n - i,
    {
        proof {
            reveal_strlit(" ");
        }
        r.append(" ");
        proof {
            assert(start + spaces((i + 1) as nat) =~= start + spaces(i as nat) + seq![' ']);
        }
        i = i + 1;
    }
}

pub open spec fn painted(style: (Seq<char>, Seq<char>), text: Seq<char>) -> Seq<char> {
    style.0 + text + style.1
}

/// The styled name of a node; for a symlink, its own name and its target's, each in its own
/// style, joined by an arrow.
pub open spec fn name_text(n: NodeView) -> Seq<char> {
    match n.target {
        Some(t) => painted(n.style, n.name) + seq![' ', '-', '>', ' '] + painted(n.target_style, t),
        None => painted(n.style, n.name),
    }
}

pub open spec fn icon_text(n: NodeView) -> Seq<char> {
    match n.icon {
        Some(g) => g + seq![' '],
        None => Seq::empty(),
    }
}

pub open spec fn size_part(n: NodeView, loc: SizeLocation, scale: nat) -> Seq<char> {
    match n.size {
        Some(b) => size_format(loc, b as nat, scale),
        None => size_default(loc, scale),
    }
}

/// The line of one node after the given prefix.
pub open spec fn line_text(n: NodeView, prefix: Seq<char>, loc: SizeLocation, scale: nat) -> Seq<char> {
    match loc {
        SizeLocation::Right => prefix + icon_text(n) + name_text(n) + seq![' '] + size_part(n, loc, scale),
        SizeLocation::Left => size_part(n, loc, scale) + seq![' '] + prefix + icon_text(n) + name_text(n),
    }
}

/// Whether the remaining depth allows printing one level further down.
pub open spec fn allows(rem: Option<nat>) -> bool {
    rem is None || rem->0 >= 1
}

pub open spec fn lower(rem: Option<nat>) -> Option<nat> {
    match rem {
        Some(r) => Some((r - 1) as nat),
        None => None,
    }
}

/// The lines, each with the depth of its node, for the children of `n` from the `i`-th on and
/// what is printed below them, depth-first; `rem` is how many levels below these children may
/// still be printed.
pub open spec fn kid_lines(
    n: NodeView,
    base: Seq<char>,
    depth: nat,
    rem: Option<nat>,
    th: ThemeView,
    loc: SizeLocation,
    scale: nat,
    i: nat,
) -> Seq<(nat, Seq<char>)>
    decreases n, n.children.len() - i,
{
    if i >= n.children.len() {
        Seq::empty()
    } else {
        let c = n.children[i as int];
        let last = i + 1 == n.children.len();
        let prefix = base + if last {
            th.uprt
        } else {
            th.vtrt
        };
        let below = if c.is_dir() && allows(rem) {
            kid_lines(
                c,
                base + if last {
                    SEP@
                } else {
                    th.vt
                },
                depth + 1,
                lower(rem),
                th,
                loc,
                scale,
                0,
            )
        } else {
            Seq::empty()
        };
        seq![(depth, line_text(c, prefix, loc, scale))] + below + kid_lines(
            n,
            base,
            depth,
            rem,
            th,
            loc,
            scale,
            i + 1,
        )
    }
}

/// Every line of the tree under `root`, each with its node's depth: the root's line without a
/// prefix, then its descendants down to depth `level` when there is one.
pub open spec fn tree_lines(root: NodeView, level: Option<nat>, th: ThemeView, loc: SizeLocation, scale: nat) -> Seq<
    (nat, Seq<char>),
> {
    seq![(0nat, line_text(root, Seq::empty(), loc, scale))] + if allows(level) {
        kid_lines(root, Seq::empty(), 1, lower(level), th, loc, scale, 0)
    } else {
        Seq::empty()
    }
}

pub open spec fn texts(ls: Seq<(nat, Seq<char>)>) -> Seq<Seq<char>> {
    Seq::new(ls.len(), |i: int| ls[i].1)
}

pub open spec fn string_views(v: Seq<String>) -> Seq<Seq<char>> {
    Seq::new(v.len(), |i: int| v[i]@)
}

pub open spec fn opt_level(level: Option<usize>) -> Option<nat> {
    match level {
        Some(l) => Some(l as nat),
        None => None,
    }
}

fn append_painted(r: &mut String, style: &crate::node::Style, text: &str)
    ensures
        final(r)@ == old(r)@ + painted((style.prefix@, style.suffix@), text@),
{
    r.append(style.prefix.as_str());
    r.append(text);
    r.append(style.suffix.as_str());
    proof {
        assert(final(r)@ =~= old(r)@ + painted((style.prefix@, style.suffix@), text@));
    }
}

/// The line of `n` after `prefix`.
pub fn node_line(n: &Node, prefix: &str, loc: SizeLocation, scale: usize) -> (r: String)
    ensures
        r@ == line_text(n@, prefix@, loc, scale as nat),
{
    let size = match n.file_size {
        Some(b) => loc.format(b, scale),
        None => loc.default_string(scale),
    };
    let mut r = String::new();
    proof {
        reveal_strlit(" ");
        reveal_strlit(" -> ");
    }
    if matches!(loc, SizeLocation::Left) {
        r.append(size.as_str());
        r.append(" ");
    }
    r.append(prefix);
    if let Some(icon) = &n.icon {
        r.append(icon.as_str());
        r.append(" ");
    }
    append_painted(&mut r, &n.style, n.file_name.as_str());
    if let Some(target) = &n.symlink_target {
        r.append(" -> ");
        append_painted(&mut r, &n.symlink_target_style, target.as_str());
    }
    if matches!(loc, SizeLocation::Right) {
        r.append(" ");
        r.append(size.as_str());
    }
    proof {
        assert(r@ =~= line_text(n@, prefix@, loc, scale as nat));
    }
    r
}

proof fn lemma_texts_add(a: Seq<(nat, Seq<char>)>, b: Seq<(nat, Seq<char>)>)
    ensures
        texts(a + b) == texts(a) + texts(b),
{
    assert(texts(a + b) =~= texts(a) + texts(b));
}

#[verifier::rlimit(60)]
fn render_kids(
    n: &Node,
    base: &String,
    Ghost(depth): Ghost<nat>,
    rem: Option<usize>,
    theme: &Theme,
    loc: SizeLocation,
    scale: usize,
    out: &mut Vec<String>,
)
    ensures
        string_views(final(out)@) == string_views(old(out)@) + texts(
            kid_lines(n@, base@, depth, opt_level(rem), theme_view(*theme), loc, scale as nat, 0),
        ),
    decreases n@,
{
    let ghost th = theme_view(*theme);
    let ghost start = string_views(out@);
    let ghost spec_rem = opt_level(rem);
    proof {
        lemma_view_children(*n);
    }
    let count = n.children.len();
    let mut i: usize = 0;
    proof {
        assert(start + texts(kid_lines(n@, base@, depth, spec_rem, th, loc, scale as nat, 0)) =~= string_views(out@)
            + texts(kid_lines(n@, base@, depth, spec_rem, th, loc, scale as nat, 0)));
    }
    while i < count
        invariant
            count == n.children@.len(),
            count == n@.children.len(),
            n@.children == crate::node::views(n.children@),
            0 <= i <= count,
            th == theme_view(*theme),
            spec_rem == opt_level(rem),
            start + texts(kid_lines(n@, base@, depth, spec_rem, th, loc, scale as nat, 0)) == string_views(out@)
                + texts(kid_lines(n@, base@, depth, spec_rem, th, loc, scale as nat, i as nat)),
        decreases count - i,
    {
        let c = &n.children[i];
        let last = i + 1 == count;
        let mut prefix = base.clone();
        if last {
            prefix.append(theme.uprt.as_str());
        } else {
            prefix.append(theme.vtrt.as_str());
        }
        let line = node_line(c, prefix.as_str(), loc, scale);
        let ghost before = string_views(out@);
        out.push(line);
        proof {
            assert(string_views(out@) =~= before.push(line@));
            assert(c@ == n@.children[i as int]);
        }
        let ghost mid = string_views(out@);
        let is_dir = matches!(c.file_type, Some(crate::node::FileKind::Dir));
        let deeper = match rem {
            Some(r) => r >= 1,
            None => true,
        };
        if is_dir && deeper {
            let mut next_base = base.clone();
            if last {
                next_base.append(SEP);
            } else {
                next_base.append(theme.vt.as_str());
            }
            let next_rem = match rem {
                Some(r) => Some(r - 1),
                None => None,
            };
            proof {
                assert(decreases_to!(n@ => n@.children));
                assert(decreases_to!(n@.children => n@.children[i as int]));
            }
            render_kids(c, &next_base, Ghost(depth + 1), next_rem, theme, loc, scale, out);
            proof {
                assert(opt_level(next_rem) == lower(spec_rem));
            }
        }
        proof {
            let c_v = n@.children[i as int];
            let pre = if last {
                th.uprt
            } else {
                th.vtrt
            };
            let own = seq![(depth, line_text(c_v, base@ + pre, loc, scale as nat))];
            let below = if c_v.is_dir() && allows(spec_rem) {
                kid_lines(
                    c_v,
                    base@ + if last {
                        SEP@
                    } else {
                        th.vt
                    },
                    depth + 1,
                    lower(spec_rem),
                    th,
                    loc,
                    scale as nat,
                    0,
                )
            } else {
                Seq::empty()
            };
            let rest = kid_lines(n@, base@, depth, spec_rem, th, loc, scale as nat, (i + 1) as nat);
            assert(kid_lines(n@, base@, depth, spec_rem, th, loc, scale as nat, i as nat) == own + below + rest);
            lemma_texts_add(own + below, rest);
            lemma_texts_add(own, below);
            assert(texts(own) =~= seq![line@]);
            assert(string_views(out@) == mid + texts(below));
        }
        i = i + 1;
    }
    proof {
        assert(texts(kid_lines(n@, base@, depth, spec_rem, th, loc, scale as nat, count as nat)) =~= Seq::<Seq<char>>::empty());
    }
}

impl Tree {
    /// The lines of the tree, depth-first: the root's line first, with no prefix, then each
    /// descendant after connectors drawn from `theme`, down to the tree's level if it has one.
    pub fn render(&self, theme: &Theme, loc: SizeLocation, scale: usize) -> (r: Vec<String>)
        ensures
            string_views(r@) == texts(
                tree_lines(self.root@, opt_level(self.level), theme_view(*theme), loc, scale as nat),
            ),
    {
        let mut out: Vec<String> = Vec::new();
        let root_line = node_line(&self.root, "", loc, scale);
        proof {
            reveal_strlit("");
        }
        out.push(root_line);
        let ghost first = string_views(out@);
        proof {
            assert(first =~= seq![root_line@]);
        }
        let deeper = match self.level {
            Some(l) => l >= 1,
            None => true,
        };
        if deeper {
            let base = String::new();
            let rem = match self.level {
                Some(l) => Some(l - 1),
                None => None,
            };
            render_kids(&self.root, &base, Ghost(1), rem, theme, loc, scale, &mut out);
            proof {
                assert(opt_level(rem) == lower(opt_level(self.level)));
            }
        }
        proof {
            let head = seq![(0nat, line_text(self.root@, Seq::empty(), loc, scale as nat))];
            let th = theme_view(*theme);
            let tail = if allows(opt_level(self.level)) {
                kid_lines(self.root@, Seq::empty(), 1, lower(opt_level(self.level)), th, loc, scale as nat, 0)
            } else {
                Seq::empty()
            };
            lemma_texts_add(head, tail);
            assert(texts(head) =~= first);
            assert(texts(Seq::<(nat, Seq<char>)>::empty()) =~= Seq::<Seq<char>>::empty());
            assert(string_views(out@) =~= texts(head) + texts(tail));
        }
        out
    }
}

} // verus!
