//! The options of a run: the flags as they are given, and the configuration
//! that they resolve to.

use vstd::prelude::*;

verus! {

/// How the path of an entry is shown.
#[derive(Clone, Copy, Debug, PartialEq, Eq, Structural)]
pub enum PathStyle {
    /// The final component of the path.
    Name,
    /// The path as it was reached from the root argument.
    RelativePath,
    /// The symlink-free absolute path of the parent directory, joined with
    /// the entry's own name.
    Canonical,
}

/// How the mode of an entry is shown.
#[derive(Clone, Copy, Debug, PartialEq, Eq, Structural)]
pub enum PermissionStyle {
    /// Not at all.
    Off,
    /// As `ls -l` does.
    Symbolic,
    /// In base eight.
    Numeric,
}

/// How the size of an entry is shown.
#[derive(Clone, Copy, Debug, PartialEq, Eq, Structural)]
pub enum SizeStyle {
    /// Not at all.
    Off,
    /// The plain number of bytes.
    Bytes,
    /// Scaled by powers of 1024.
    Human1024,
    /// Scaled by powers of 1000.
    Human1000,
}

/// How symlink cycles are avoided.
#[derive(Clone, Copy, Debug, PartialEq, Eq, Structural)]
pub enum CycleDetection {
    /// Nothing is recorded and nothing is checked.
    Fast,
    /// The directories of a listing are recorded before its entries are
    /// shown, and a symlink into a recorded directory is not followed.
    Precomputed,
    /// As `Precomputed`, with the ancestors of the root recorded at the
    /// start.
    Advanced,
}

/// The flags of a run, each as it is given on the command line.
#[derive(Clone, Debug)]
pub struct Opt {
    /// Show all entries, hidden ones included.
    pub show_hidden: bool,
    /// Show only directories.
    pub only_dir: bool,
    /// Follow symlinks that point to directories.
    pub follow_symlink: bool,
    /// Show canonical paths.
    pub keep_canonical: bool,
    /// Show the path of each entry from the root argument on.
    pub full_rel_path: bool,
    /// Show the root by its canonical path, whatever the other entries show.
    pub base_canonical: bool,
    /// Draw no tree glyphs and no indentation.
    pub no_indent: bool,
    /// Color the output.
    pub colorize: bool,
    /// Show type and permissions as `ls -l` does.
    pub perms: bool,
    /// Show the mode in base eight.
    pub num_perms: bool,
    /// Show the size in bytes.
    pub size: bool,
    /// Show the size scaled by powers of 1000.
    pub hsize_ib: bool,
    /// Show the size scaled by powers of 1024.
    pub hsize: bool,
    /// Skip the detection of symlink cycles.
    pub fast_rsc: bool,
    /// Record the ancestors of the root for the detection of symlink cycles.
    pub ladv: bool,
    /// The number of levels to show; 0 shows all.
    pub level: usize,
    /// The largest number of entries of a directory that is still shown; 0
    /// sets no limit.
    pub filelimit: usize,
    /// The directory to start with.
    pub directory: String,
    /// The file to write to; empty for the standard output.
    pub target_file: String,
}

/// The configuration of a run, resolved from the flags.
#[derive(Clone, Copy, Debug)]
pub struct Config {
    pub show_hidden: bool,
    pub dirs_only: bool,
    pub follow_symlinks: bool,
    /// The number of levels to show; absent or zero for all.
    pub max_depth: Option<usize>,
    /// The largest number of entries of a directory that is still shown;
    /// absent or zero for no limit.
    pub entry_limit: Option<usize>,
    /// How the entries below the root are named.
    pub path_style: PathStyle,
    /// How the root is named.
    pub root_style: PathStyle,
    /// Whether the tree glyphs are drawn.
    pub indent: bool,
    pub colorize: bool,
    pub show_permissions: PermissionStyle,
    pub show_size: SizeStyle,
    pub cycle_detection: CycleDetection,
}

/// A bound given as a number in which zero means "none".
pub open spec fn bound_of(number: usize) -> Option<usize> {
    if number == 0 {
        None
    } else {
        Some(number)
    }
}

/// The path style that the two path flags select: the relative path wins
/// over the canonical one.
pub open spec fn path_style_of(canonical: bool, relative: bool) -> PathStyle {
    if relative {
        PathStyle::RelativePath
    } else if canonical {
        PathStyle::Canonical
    } else {
        PathStyle::Name
    }
}

/// Whether the bound is in force and `value` is beyond it.
pub open spec fn exceeds(bound: Option<usize>, value: nat) -> bool {
    match bound {
        Some(limit) => limit != 0 && value > limit,
        None => false,
    }
}

/// Whether the bound is in force and `value` has reached it.
pub open spec fn reaches(bound: Option<usize>, value: nat) -> bool {
    match bound {
        Some(limit) => limit != 0 && value == limit,
        None => false,
    }
}

impl Opt {
    /// The configuration that the flags resolve to.
    ///
    /// Of two flags that contradict each other one wins: the numeric mode
    /// over the symbolic one; the size in bytes over a scaled size, and the
    /// scale of 1000 over that of 1024; the relative path over the canonical
    /// one; `fast_rsc` over `ladv`. `base_canonical` names the root by its
    /// canonical path whatever names the other entries.
    pub open spec fn spec_config(&self) -> Config {
        Config {
            show_hidden: self.show_hidden,
            dirs_only: self.only_dir,
            follow_symlinks: self.follow_symlink,
            max_depth: bound_of(self.level),
            entry_limit: bound_of(self.filelimit),
            path_style: path_style_of(self.keep_canonical, self.full_rel_path),
            root_style: if self.base_canonical {
                PathStyle::Canonical
            } else {
                path_style_of(self.keep_canonical, self.full_rel_path)
            },
            indent: !self.no_indent,
            colorize: self.colorize,
            show_permissions: if self.num_perms {
                PermissionStyle::Numeric
            } else if self.perms {
                PermissionStyle::Symbolic
            } else {
                PermissionStyle::Off
            },
            show_size: if self.size {
                SizeStyle::Bytes
            } else if self.hsize_ib {
                SizeStyle::Human1000
            } else if self.hsize {
                SizeStyle::Human1024
            } else {
                SizeStyle::Off
            },
            cycle_detection: if self.fast_rsc {
                CycleDetection::Fast
            } else if self.ladv {
                CycleDetection::Advanced
            } else {
                CycleDetection::Precomputed
            },
        }
    }

    /// Resolves the flags to the configuration of the run.
    pub fn config(&self) -> (config: Config)
        ensures
            config == self.spec_config(),
    {
        let path_style = if self.full_rel_path {
            PathStyle::RelativePath
        } else if self.keep_canonical {
            PathStyle::Canonical
        } else {
            PathStyle::Name
        };
        Config {
            show_hidden: self.show_hidden,
            dirs_only: self.only_dir,
            follow_symlinks: self.follow_symlink,
            max_depth: if self.level == 0 {
                None
            } else {
                Some(self.level)
            },
            entry_limit: if self.filelimit == 0 {
                None
            } else {
                Some(self.filelimit)
            },
            path_style,
            root_style: if self.base_canonical {
                PathStyle::Canonical
            } else {
                path_style
            },
            indent: !self.no_indent,
            colorize: self.colorize,
            show_permissions: if self.num_perms {
                PermissionStyle::Numeric
            } else if self.perms {
                PermissionStyle::Symbolic
            } else {
                PermissionStyle::Off
            },
            show_size: if self.size {
                SizeStyle::Bytes
            } else if self.hsize_ib {
                SizeStyle::Human1000
            } else if self.hsize {
                SizeStyle::Human1024
            } else {
                SizeStyle::Off
            },
            cycle_detection: if self.fast_rsc {
                CycleDetection::Fast
            } else if self.ladv {
                CycleDetection::Advanced
            } else {
                CycleDetection::Precomputed
            },
        }
    }
}

impl Config {
    /// Whether a line carries the mode or the size of its entry.
    pub open spec fn spec_needs_metadata(&self) -> bool {
        self.show_permissions != PermissionStyle::Off || self.show_size != SizeStyle::Off
    }

    /// Whether a line carries the mode or the size of its entry.
    #[verifier::when_used_as_spec(spec_needs_metadata)]
    pub fn needs_metadata(&self) -> (needed: bool)
        ensures
            needed == self.spec_needs_metadata(),
    {
        !matches!(self.show_permissions, PermissionStyle::Off) || !matches!(
            self.show_size,
            SizeStyle::Off
        )
    }

    /// Whether a directory with `count` entries is too large to be shown.
    pub fn over_limit(&self, count: usize) -> (over: bool)
        ensures
            over == exceeds(self.entry_limit, count as nat),
    {
        match self.entry_limit {
            Some(limit) => limit != 0 && count > limit,
            None => false,
        }
    }

    /// Whether a directory at `depth` lies at the depth limit, so that it is
    /// not listed.
    pub fn at_depth_limit(&self, depth: usize) -> (at_limit: bool)
        ensures
            at_limit == reaches(self.max_depth, depth as nat),
    {
        match self.max_depth {
            Some(limit) => limit != 0 && depth == limit,
            None => false,
        }
    }
}

} // verus!
