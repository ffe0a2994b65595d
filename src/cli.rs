use vstd::prelude::*;

verus! {

/// Order in which to print nodes.
#[derive(Clone, Copy, Debug, PartialEq, Eq, Structural)]
pub enum Order {
    /// Sort entries by file name
    Name,
    /// Sort entries by size smallest to largest, top to bottom
    Size,
    /// Sort entries by size largest to smallest, top to bottom
    SizeRev,
    /// Keep entries in the order in which they arrived
    Unsorted,
}

/// Display disk usage output as either logical size or physical size.
#[derive(Clone, Copy, Debug, PartialEq, Eq, Structural)]
pub enum DiskUsage {
    /// How many bytes does a file contain
    Logical,
    /// How much actual space on disk based on blocks allocated, taking into account sparse files
    /// and compression.
    Physical,
}

/// The command line: where to start, what to walk, and how to show it.
pub struct Clargs {
    /// Root directory to traverse; defaults to current working directory
    pub dir: Option<String>,
    /// Print physical or logical file size
    pub disk_usage: DiskUsage,
    /// Include or exclude files using glob patterns
    pub glob: Vec<String>,
    /// Include or exclude files using glob patterns; case insensitive
    pub iglob: Vec<String>,
    /// Process all glob patterns case insensitively
    pub glob_case_insensitive: bool,
    /// Show hidden files
    pub hidden: bool,
    /// Disable traversal of .git directory when traversing hidden files
    pub ignore_git: bool,
    /// Display file icons
    pub icons: bool,
    /// Ignore .gitignore
    pub ignore_git_ignore: bool,
    /// Maximum depth to display
    pub level: Option<usize>,
    /// Total number of digits after the decimal to display for disk usage
    pub scale: usize,
    /// Sort-order to display directory content
    pub sort: Order,
    /// Always sorts directories above files
    pub dirs_first: bool,
    /// Remove directories that end up with no children
    pub prune: bool,
    /// Print disk usage information in plain format without the ASCII tree
    pub flat: bool,
    /// Traverse symlink directories and consider their disk usage
    pub follow_links: bool,
    /// Number of threads to use
    pub threads: usize,
}

/// The pattern that keeps the walk out of `.git`.
pub const NO_GIT_GLOB: &'static str = "!.git/**/*";

/// The glob overrides in the order they are added, each with whether it matches case
/// insensitively: the `.git` exclusion when asked for, then the globs, then the
/// case-insensitive globs.
pub open spec fn override_plan(c: Clargs) -> Seq<(Seq<char>, bool)> {
    let git: Seq<(Seq<char>, bool)> = if c.ignore_git {
        seq![(NO_GIT_GLOB@, false)]
    } else {
        Seq::empty()
    };
    git + Seq::new(c.glob@.len(), |i: int| (c.glob@[i]@, c.glob_case_insensitive)) + Seq::new(
        c.iglob@.len(),
        |i: int| (c.iglob@[i]@, true),
    )
}

pub open spec fn plan_view(v: Seq<(String, bool)>) -> Seq<(Seq<char>, bool)> {
    Seq::new(v.len(), |i: int| (v[i].0@, v[i].1))
}

impl Clargs {
    /// Returns the path of the root directory to be traversed; `.` when none was given.
    pub fn dir(&self) -> (r: &str)
        ensures
            self.dir is Some ==> r@ == self.dir->0@,
            self.dir is None ==> r@ == seq!['.'],
    {
        match &self.dir {
            Some(d) => d.as_str(),
            None => {
                proof {
                    reveal_strlit(".");
                }
                "."
            },
        }
    }

    /// The sort-order used for printing.
    pub fn sort(&self) -> (r: Order)
        ensures
            r == self.sort,
    {
        self.sort
    }

    /// Getter for `dirs_first` field.
    pub fn dirs_first(&self) -> (r: bool)
        ensures
            r == self.dirs_first,
    {
        self.dirs_first
    }

    /// Getter for `disk_usage` field.
    pub fn disk_usage(&self) -> (r: &DiskUsage)
        ensures
            *r == self.disk_usage,
    {
        &self.disk_usage
    }

    /// The max depth to print. Note that all directories are fully traversed to compute file
    /// sizes; this just determines how much to print.
    pub fn level(&self) -> (r: Option<usize>)
        ensures
            r == self.level,
    {
        self.level
    }

    /// The glob overrides to hand to the walker, in order, each with its case sensitivity.
    pub fn override_globs(&self) -> (r: Vec<(String, bool)>)
        ensures
            plan_view(r@) == override_plan(*self),
    {
        let mut r: Vec<(String, bool)> = Vec::new();
        if self.ignore_git {
            proof {
                broadcast use vstd::string::to_string_from_display_ensures_for_str;
            }
            r.push((NO_GIT_GLOB.to_string(), false));
        }
        let ghost head = plan_view(r@);
        let mut i: usize = 0;
        while i < self.glob.len()
            invariant
                0 <= i <= self.glob@.len(),
                r@.len() == head.len() + i,
                plan_view(r@) == head + Seq::new(i as nat, |j: int| (self.glob@[j]@, self.glob_case_insensitive)),
            decreases self.glob@.len() - i,
        {
            let ghost before = r@;
            let g = self.glob[i].clone();
            r.push((g, self.glob_case_insensitive));
            proof {
                assert(plan_view(r@) =~= plan_view(before).push((self.glob@[i as int]@, self.glob_case_insensitive)));
                assert(plan_view(r@) =~= head + Seq::new((i + 1) as nat, |j: int| (self.glob@[j]@, self.glob_case_insensitive)));
            }
            i = i + 1;
        }
        let ghost mid = plan_view(r@);
        let mut k: usize = 0;
        while k < self.iglob.len()
            invariant
                0 <= k <= self.iglob@.len(),
                r@.len() == mid.len() + k,
                plan_view(r@) == mid + Seq::new(k as nat, |j: int| (self.iglob@[j]@, true)),
            decreases self.iglob@.len() - k,
        {
            let ghost before = r@;
            let g = self.iglob[k].clone();
            r.push((g, true));
            proof {
                assert(plan_view(r@) =~= plan_view(before).push((self.iglob@[k as int]@, true)));
                assert(plan_view(r@) =~= mid + Seq::new((k + 1) as nat, |j: int| (self.iglob@[j]@, true)));
            }
            k = k + 1;
        }
        proof {
            let git: Seq<(Seq<char>, bool)> = if self.ignore_git {
                seq![(NO_GIT_GLOB@, false)]
            } else {
                Seq::empty()
            };
            assert(head =~= git);
            assert(mid =~= head + Seq::new(self.glob@.len(), |j: int| (self.glob@[j]@, self.glob_case_insensitive)));
            assert(plan_view(r@) =~= override_plan(*self));
        }
        r
    }
}

} // verus!
