use vstd::prelude::*;

use crate::cli::DiskUsage;

verus! {

/// The kind of filesystem object an entry stands for.
#[derive(Clone, Copy, Debug, PartialEq, Eq, Structural)]
pub enum FileKind {
    Dir,
    File,
    Symlink,
    Other,
}

/// Device and inode number of an entry, with its hard-link count.
#[derive(Clone, Copy, Debug, PartialEq, Eq, Structural)]
pub struct Inode {
    pub ino: u64,
    pub dev: u64,
    pub nlink: u64,
}

/// A resolved text style, held as the escape sequences written before and after the text.
/// A plain style has both empty.
pub struct Style {
    pub prefix: String,
    pub suffix: String,
}

/// A path as the sequence of its components.
pub type PathView = Seq<Seq<char>>;

/// What a node holds, in mathematical terms.
pub ghost struct NodeView {
    pub depth: nat,
    pub size: Option<u64>,
    pub name: Seq<char>,
    pub kind: Option<FileKind>,
    pub inode: Option<Inode>,
    pub path: PathView,
    pub icon: Option<Seq<char>>,
    pub style: (Seq<char>, Seq<char>),
    pub target: Option<Seq<char>>,
    pub target_style: (Seq<char>, Seq<char>),
    pub children: Seq<NodeView>,
}

impl NodeView {
    pub open spec fn is_dir(self) -> bool {
        self.kind == Some(FileKind::Dir)
    }

    /// The size that a node contributes to its parent's total.
    pub open spec fn weight(self) -> nat {
        match self.size {
            Some(s) => s as nat,
            None => 0,
        }
    }

    /// Whether this entry sits directly inside the directory at `p`.
    pub open spec fn is_child_of(self, p: PathView) -> bool {
        self.depth != 0 && self.path.len() > 0 && self.path.drop_last() == p
    }
}

pub open spec fn view_style(s: Style) -> (Seq<char>, Seq<char>) {
    (s.prefix@, s.suffix@)
}

pub open spec fn view_opt_string(s: Option<String>) -> Option<Seq<char>> {
    match s {
        Some(t) => Some(t@),
        None => None,
    }
}

pub open spec fn view_path(p: Seq<String>) -> PathView {
    Seq::new(p.len(), |i: int| p[i]@)
}

/// The views of a sequence of nodes, one for one.
pub open spec fn views(s: Seq<Node>) -> Seq<NodeView> {
    Seq::new(s.len(), |i: int| s[i]@)
}

/// An entry of a filesystem tree: its identity, classification, measurement and presentation,
/// with the entries beneath it once the tree is assembled.
pub struct Node {
    pub depth: usize,
    pub file_size: Option<u64>,
    pub children: Vec<Node>,
    pub file_name: String,
    pub file_type: Option<FileKind>,
    pub inode: Option<Inode>,
    pub path: Vec<String>,
    pub icon: Option<String>,
    pub style: Style,
    pub symlink_target: Option<String>,
    pub symlink_target_style: Style,
}

/// What `n` holds, its children included.
pub open spec fn view_node(n: Node) -> NodeView
    decreases n,
{
    NodeView {
        depth: n.depth as nat,
        size: n.file_size,
        name: n.file_name@,
        kind: n.file_type,
        inode: n.inode,
        path: view_path(n.path@),
        icon: view_opt_string(n.icon),
        style: view_style(n.style),
        target: view_opt_string(n.symlink_target),
        target_style: view_style(n.symlink_target_style),
        children: Seq::new(
            n.children@.len(),
            |i: int|
                if 0 <= i < n.children@.len() {
                    view_node(n.children@[i])
                } else {
                    arbitrary()
                },
        ),
    }
}

impl View for Node {
    type V = NodeView;

    open spec fn view(&self) -> NodeView {
        view_node(*self)
    }
}

/// The children of a node's view are the views of its children.
pub proof fn lemma_view_children(n: Node)
    ensures
        n@.children == views(n.children@),
{
    let v = n.view();
    assert(v.children.len() == n.children@.len());
    assert forall|i: int| 0 <= i < v.children.len() implies v.children[i] == views(n.children@)[i] by {}
    assert(v.children =~= views(n.children@));
}

/// A copy of a sequence of nodes in reverse order.
pub fn reversed(v: Vec<Node>) -> (r: Vec<Node>)
    ensures
        views(r@) == views(v@).reverse(),
{
    let ghost s = views(v@);
    let mut rest = v;
    let mut out: Vec<Node> = Vec::new();
    while rest.len() > 0
        invariant
            views(rest@) + views(out@).reverse() == s,
        decreases rest.len(),
    {
        let ghost before = rest@;
        let x = rest.pop().unwrap();
        proof {
            assert(views(before) =~= views(rest@).push(x@));
            assert(views(out@.push(x)).reverse() =~= seq![x@] + views(out@).reverse());
        }
        out.push(x);
    }
    proof {
        assert(views(rest@) =~= Seq::<NodeView>::empty());
        assert(views(out@).reverse() =~= s);
        assert(views(out@) =~= s.reverse());
    }
    out
}

impl Style {
    /// A style that leaves text as it is.
    pub fn plain() -> (r: Style)
        ensures
            r.prefix@ == Seq::<char>::empty(),
            r.suffix@ == Seq::<char>::empty(),
    {
        Style { prefix: String::new(), suffix: String::new() }
    }
}

impl Node {
    /// Initializes a new [`Node`].
    #[allow(clippy::too_many_arguments)]
    pub fn new(
        depth: usize,
        file_size: Option<u64>,
        children: Vec<Node>,
        file_name: String,
        file_type: Option<FileKind>,
        inode: Option<Inode>,
        path: Vec<String>,
        icon: Option<String>,
        style: Style,
        symlink_target: Option<String>,
        symlink_target_style: Style,
    ) -> (r: Node)
        ensures
            r == (Node {
                depth,
                file_size,
                children,
                file_name,
                file_type,
                inode,
                path,
                icon,
                style,
                symlink_target,
                symlink_target_style,
            }),
    {
        Node {
            depth,
            file_size,
            children,
            file_name,
            file_type,
            inode,
            path,
            icon,
            style,
            symlink_target,
            symlink_target_style,
        }
    }

    /// Returns the children.
    pub fn children(&self) -> (r: &Vec<Node>)
        ensures
            r == &self.children,
    {
        &self.children
    }

    /// Sets `children`.
    pub fn set_children(&mut self, children: Vec<Node>)
        ensures
            *final(self) == (Node { children, ..*old(self) }),
    {
        self.children = children;
    }

    /// The file name; for a symlink, the name of the link rather than of its target.
    pub fn file_name(&self) -> (r: &str)
        ensures
            r@ == self.file_name@,
    {
        self.file_name.as_str()
    }

    /// Returns `true` if node is a directory.
    pub fn is_dir(&self) -> (r: bool)
        ensures
            r == self@.is_dir(),
    {
        matches!(self.file_type, Some(FileKind::Dir))
    }

    /// Is the Node a symlink.
    pub fn is_symlink(&self) -> (r: bool)
        ensures
            r == self.symlink_target is Some,
    {
        self.symlink_target.is_some()
    }

    /// Path to symlink target.
    pub fn symlink_target_path(&self) -> (r: Option<&String>)
        ensures
            r is Some <==> self.symlink_target is Some,
            r is Some ==> *r->0 == self.symlink_target->0,
    {
        match &self.symlink_target {
            Some(t) => Some(t),
            None => None,
        }
    }

    /// The kind of filesystem object, when it is known.
    pub fn file_type(&self) -> (r: Option<FileKind>)
        ensures
            r == self.file_type,
    {
        self.file_type
    }

    /// The path of the directory that holds this node, if it has one.
    pub fn parent_path_buf(&self) -> (r: Option<Vec<String>>)
        ensures
            r is None <==> self@.path.len() == 0,
            r is Some ==> view_path(r->0@) == self@.path.drop_last(),
    {
        crate::branches::parent_of(&self.path)
    }

    /// The path, as its components.
    pub fn path(&self) -> (r: &Vec<String>)
        ensures
            r == &self.path,
    {
        &self.path
    }

    /// Gets `file_size`.
    pub fn file_size(&self) -> (r: Option<u64>)
        ensures
            r == self.file_size,
    {
        self.file_size
    }

    /// Sets `file_size`.
    pub fn set_file_size(&mut self, size: u64)
        ensures
            *final(self) == (Node { file_size: Some(size), ..*old(self) }),
    {
        self.file_size = Some(size);
    }

    /// Gets `style`.
    pub fn style(&self) -> (r: &Style)
        ensures
            r == &self.style,
    {
        &self.style
    }

    /// Returns the inode identity if any.
    pub fn inode(&self) -> (r: Option<Inode>)
        ensures
            r == self.inode,
    {
        self.inode
    }
}

/// The size an entry is delivered with: for a regular file or a symlink, its own size, logical
/// (`len`, its length in bytes) or physical (`blocks` of 512 bytes allocated, held at
/// `u64::MAX`); nothing for any other kind, directories included, which get theirs from their
/// children.
pub open spec fn entry_size_of(kind: Option<FileKind>, disk_usage: DiskUsage, len: u64, blocks: u64) -> Option<u64> {
    if kind == Some(FileKind::File) || kind == Some(FileKind::Symlink) {
        match disk_usage {
            DiskUsage::Logical => Some(len),
            DiskUsage::Physical => Some(
                if blocks * 512 > u64::MAX {
                    u64::MAX
                } else {
                    (blocks * 512) as u64
                },
            ),
        }
    } else {
        None
    }
}

/// Computes `entry_size_of` from an entry's kind and metadata.
pub fn entry_size(kind: Option<FileKind>, disk_usage: DiskUsage, len: u64, blocks: u64) -> (r: Option<u64>)
    ensures
        r == entry_size_of(kind, disk_usage, len, blocks),
{
    let sized = match kind {
        Some(FileKind::File) => true,
        Some(FileKind::Symlink) => true,
        _ => false,
    };
    if !sized {
        return None;
    }
    match disk_usage {
        DiskUsage::Logical => Some(len),
        DiskUsage::Physical => {
            if blocks > u64::MAX / 512 {
                Some(u64::MAX)
            } else {
                Some(blocks * 512)
            }
        },
    }
}

} // verus!
