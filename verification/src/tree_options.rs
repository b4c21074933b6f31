//! Options defining how the tree should be built and displayed. The
//! expansion core tolerates being asked about them but does not read
//! them; command-line binding happens outside, which hands in the
//! resolved flags.

use vstd::prelude::*;
use vstd::string::StringExecFns;

verus! {

/// Which attribute orders siblings.
#[derive(Debug, Clone, Copy, PartialEq, Eq, Structural)]
pub enum Sort {
    Unsorted,
    Count,
    Date,
    Size,
}

/// An optional filtering/scoring pattern; kept opaque here, the
/// expansion core never reads it.
#[derive(Debug, Clone)]
pub enum InputPattern {
    NoPattern,
    Fuzzy(String),
}

impl InputPattern {
    pub fn none() -> (p: InputPattern)
        ensures
            p is NoPattern,
    {
        InputPattern::NoPattern
    }
}

/// Options defining how the tree should be built and/or displayed.
#[derive(Debug, Clone)]
pub struct TreeOptions {
    pub show_hidden: bool,
    pub only_folders: bool,
    pub show_counts: bool,
    pub show_dates: bool,
    pub show_sizes: bool,
    pub show_git_file_info: bool,
    pub trim_root: bool,
    pub show_permissions: bool,
    pub respect_git_ignore: bool,
    pub filter_by_git_status: bool,
    pub pattern: InputPattern,
    pub date_time_format: String,
    pub sort: Sort,
}

/// The command-line switches that may change the options; `Some(b)`
/// stands for an explicit yes/no pair of flags, `None` for neither.
/// `gitignore` carries the resolved value of `respect_git_ignore`.
#[derive(Debug, Clone, Copy)]
pub struct CliFlags {
    pub sizes: Option<bool>,
    pub whale_spotting: bool,
    pub only_folders: Option<bool>,
    pub hidden: Option<bool>,
    pub dates: Option<bool>,
    pub permissions: Option<bool>,
    pub gitignore: Option<bool>,
    pub git_info: Option<bool>,
    pub sort_by_count: bool,
    pub sort_by_date: bool,
    pub sort_by_size: bool,
    pub no_sort: bool,
    pub trim_root: Option<bool>,
}

impl TreeOptions {
    /// Counts must be computed, either for sorting or just for display.
    pub fn needs_counts(&self) -> (r: bool)
        ensures
            r == (self.show_counts || self.sort is Count),
    {
        self.show_counts || self.sort == Sort::Count
    }

    /// Dates must be computed, either for sorting or just for display.
    pub fn needs_dates(&self) -> (r: bool)
        ensures
            r == (self.show_dates || self.sort is Date),
    {
        self.show_dates || self.sort == Sort::Date
    }

    /// Sizes must be computed, either for sorting or just for display.
    pub fn needs_sizes(&self) -> (r: bool)
        ensures
            r == (self.show_sizes || self.sort is Size),
    {
        self.show_sizes || self.sort == Sort::Size
    }

    /// Some per-subtree aggregate must be computed.
    pub fn needs_sum(&self) -> (r: bool)
        ensures
            r == (self.show_counts || self.sort is Count || self.show_dates || self.sort is Date
                || self.show_sizes || self.sort is Size),
    {
        self.needs_counts() || self.needs_dates() || self.needs_sizes()
    }

    /// Clone of self but without the pattern (if any).
    pub fn without_pattern(&self) -> (r: Self)
        ensures
            r.show_hidden == self.show_hidden,
            r.only_folders == self.only_folders,
            r.show_counts == self.show_counts,
            r.show_dates == self.show_dates,
            r.show_sizes == self.show_sizes,
            r.show_git_file_info == self.show_git_file_info,
            r.trim_root == self.trim_root,
            r.show_permissions == self.show_permissions,
            r.respect_git_ignore == self.respect_git_ignore,
            r.filter_by_git_status == self.filter_by_git_status,
            r.pattern is NoPattern,
            r.date_time_format@ == self.date_time_format@,
            r.sort == self.sort,
    {
        TreeOptions {
            show_hidden: self.show_hidden,
            only_folders: self.only_folders,
            show_counts: self.show_counts,
            show_dates: self.show_dates,
            show_sizes: self.show_sizes,
            show_permissions: self.show_permissions,
            respect_git_ignore: self.respect_git_ignore,
            filter_by_git_status: self.filter_by_git_status,
            show_git_file_info: self.show_git_file_info,
            trim_root: self.trim_root,
            pattern: InputPattern::none(),
            date_time_format: self.date_time_format.clone(),
            sort: self.sort,
        }
    }

    /// Remembers the date/time rendering format.
    pub fn set_date_time_format(&mut self, format: String)
        ensures
            final(self).date_time_format@ == format@,
            final(self).show_hidden == old(self).show_hidden,
            final(self).only_folders == old(self).only_folders,
            final(self).show_counts == old(self).show_counts,
            final(self).show_dates == old(self).show_dates,
            final(self).show_sizes == old(self).show_sizes,
            final(self).show_git_file_info == old(self).show_git_file_info,
            final(self).trim_root == old(self).trim_root,
            final(self).show_permissions == old(self).show_permissions,
            final(self).respect_git_ignore == old(self).respect_git_ignore,
            final(self).filter_by_git_status == old(self).filter_by_git_status,
            final(self).pattern == old(self).pattern,
            final(self).sort == old(self).sort,
    {
        self.date_time_format = format;
    }

    /// Changes the options as the launch flags ask, each explicit flag
    /// overriding, in the order the command line binding fixes: the
    /// whale-spotting bundle sits between the plain toggles and the
    /// sort-by switches.
    #[verifier::rlimit(100)]
    pub fn apply(&mut self, flags: &CliFlags)
        ensures
            final(self).show_sizes == (if flags.sort_by_size || flags.whale_spotting {
                true
            } else if flags.sizes is Some {
                flags.sizes->0
            } else {
                old(self).show_sizes
            }),
            final(self).show_hidden == (if flags.hidden is Some {
                flags.hidden->0
            } else if flags.whale_spotting {
                true
            } else {
                old(self).show_hidden
            }),
            final(self).respect_git_ignore == (if flags.gitignore is Some {
                flags.gitignore->0
            } else if flags.whale_spotting {
                false
            } else {
                old(self).respect_git_ignore
            }),
            final(self).only_folders == (if flags.only_folders is Some {
                flags.only_folders->0
            } else {
                old(self).only_folders
            }),
            final(self).show_dates == (if flags.sort_by_date {
                true
            } else if flags.dates is Some {
                flags.dates->0
            } else {
                old(self).show_dates
            }),
            final(self).show_permissions == (if flags.permissions is Some {
                flags.permissions->0
            } else {
                old(self).show_permissions
            }),
            final(self).show_git_file_info == (if flags.git_info is Some {
                flags.git_info->0
            } else {
                old(self).show_git_file_info
            }),
            final(self).show_counts == (if flags.sort_by_count {
                true
            } else {
                old(self).show_counts
            }),
            final(self).sort == (if flags.no_sort {
                Sort::Unsorted
            } else if flags.sort_by_size {
                Sort::Size
            } else if flags.sort_by_date {
                Sort::Date
            } else if flags.sort_by_count {
                Sort::Count
            } else if flags.whale_spotting {
                Sort::Size
            } else {
                old(self).sort
            }),
            final(self).trim_root == (if flags.trim_root is Some {
                flags.trim_root->0
            } else {
                old(self).trim_root
            }),
            final(self).filter_by_git_status == old(self).filter_by_git_status,
            final(self).pattern == old(self).pattern,
            final(self).date_time_format == old(self).date_time_format,
    {
        self.show_sizes = if flags.sort_by_size || flags.whale_spotting {
            true
        } else if let Option::Some(b) = flags.sizes {
            b
        } else {
            self.show_sizes
        };
        self.show_hidden = if let Option::Some(b) = flags.hidden {
            b
        } else if flags.whale_spotting {
            true
        } else {
            self.show_hidden
        };
        self.respect_git_ignore = if let Option::Some(b) = flags.gitignore {
            b
        } else if flags.whale_spotting {
            false
        } else {
            self.respect_git_ignore
        };
        self.only_folders = if let Option::Some(b) = flags.only_folders {
            b
        } else {
            self.only_folders
        };
        self.show_dates = if flags.sort_by_date {
            true
        } else if let Option::Some(b) = flags.dates {
            b
        } else {
            self.show_dates
        };
        self.show_permissions = if let Option::Some(b) = flags.permissions {
            b
        } else {
            self.show_permissions
        };
        self.show_git_file_info = if let Option::Some(b) = flags.git_info {
            b
        } else {
            self.show_git_file_info
        };
        self.show_counts = if flags.sort_by_count {
            true
        } else {
            self.show_counts
        };
        self.sort = if flags.no_sort {
            Sort::Unsorted
        } else if flags.sort_by_size {
            Sort::Size
        } else if flags.sort_by_date {
            Sort::Date
        } else if flags.sort_by_count {
            Sort::Count
        } else if flags.whale_spotting {
            Sort::Size
        } else {
            self.sort
        };
        self.trim_root = if let Option::Some(b) = flags.trim_root {
            b
        } else {
            self.trim_root
        };
    }
}

impl Default for TreeOptions {
    fn default() -> (r: Self)
        ensures
            r.show_hidden == false,
            r.only_folders == false,
            r.show_counts == false,
            r.show_dates == false,
            r.show_sizes == false,
            r.show_git_file_info == false,
            r.trim_root == true,
            r.show_permissions == false,
            r.respect_git_ignore == true,
            r.filter_by_git_status == false,
            r.pattern is NoPattern,
            r.date_time_format@ == "%Y/%m/%d %R"@,
            r.sort is Unsorted,
    {
        TreeOptions {
            show_hidden: false,
            only_folders: false,
            show_counts: false,
            show_dates: false,
            show_sizes: false,
            show_git_file_info: false,
            trim_root: true,
            show_permissions: false,
            respect_git_ignore: true,
            filter_by_git_status: false,
            pattern: InputPattern::none(),
            date_time_format: String::from_str("%Y/%m/%d %R"),
            sort: Sort::Unsorted,
        }
    }
}

} // verus!
