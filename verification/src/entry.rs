//! One filesystem object as the walk sees it.

use vstd::prelude::*;
use crate::perms::is_executable;
use crate::perms::spec_is_executable;

verus! {

/// One filesystem object: what a listing of its directory tells of it.
#[derive(Clone, Debug)]
pub struct Entry {
    /// The final component of the path.
    pub name: String,
    /// The path as it was reached from the root argument.
    pub path: String,
    /// The symlink-free absolute path, where it can be resolved.
    pub canonical: Option<String>,
    /// Whether the path, with symlinks followed, leads to a directory.
    pub is_directory: bool,
    /// Whether the object itself is a symlink.
    pub is_symlink: bool,
    /// The text of the link, where the object is a symlink.
    pub symlink_target: Option<String>,
    /// The mode of the object itself: the type of the file and the
    /// permission bits.
    pub permission_bits: u32,
    /// The size of the object itself.
    pub size_bytes: u64,
}

/// The mathematical value of an `Entry`: each text as a sequence of
/// characters.
pub struct EntryView {
    pub name: Seq<char>,
    pub path: Seq<char>,
    pub canonical: Option<Seq<char>>,
    pub is_directory: bool,
    pub is_symlink: bool,
    pub symlink_target: Option<Seq<char>>,
    pub permission_bits: u32,
    pub size_bytes: u64,
}

/// The characters of an optional text.
pub open spec fn text_of(text: Option<String>) -> Option<Seq<char>> {
    match text {
        Some(t) => Some(t@),
        None => None,
    }
}

impl View for Entry {
    type V = EntryView;

    open spec fn view(&self) -> EntryView {
        EntryView {
            name: self.name@,
            path: self.path@,
            canonical: text_of(self.canonical),
            is_directory: self.is_directory,
            is_symlink: self.is_symlink,
            symlink_target: text_of(self.symlink_target),
            permission_bits: self.permission_bits,
            size_bytes: self.size_bytes,
        }
    }
}

/// The values of the entries of a listing.
pub open spec fn views(listing: Seq<Entry>) -> Seq<EntryView> {
    listing.map_values(|entry: Entry| entry@)
}

/// The categories by which entries are colored.
#[derive(Clone, Copy, Debug, PartialEq, Eq, Structural)]
pub enum EntryClass {
    /// A directory that is no symlink.
    Directory,
    /// A symlink whose target exists and is a directory.
    LinkToDirectory,
    /// A symlink whose target exists and is no directory.
    LinkToFile,
    /// A symlink whose target cannot be resolved.
    BrokenLink,
    /// A file, no symlink, with an execute flag set.
    Executable,
    /// Any other file.
    Plain,
}

/// The category of an entry. A symlink is classified by its target, any
/// other entry by itself.
pub open spec fn classify(entry: EntryView) -> EntryClass {
    if entry.is_symlink {
        if entry.canonical is None {
            EntryClass::BrokenLink
        } else if entry.is_directory {
            EntryClass::LinkToDirectory
        } else {
            EntryClass::LinkToFile
        }
    } else if entry.is_directory {
        EntryClass::Directory
    } else if spec_is_executable(entry.permission_bits) {
        EntryClass::Executable
    } else {
        EntryClass::Plain
    }
}

/// What stands behind the arrow of a symlink: the canonical path of the
/// target where it resolves, else the text of the link.
pub open spec fn target_text(entry: EntryView) -> Seq<char> {
    match entry.canonical {
        Some(resolved) => resolved,
        None => match entry.symlink_target {
            Some(link) => link,
            None => Seq::empty(),
        },
    }
}

impl Entry {
    /// The category of the entry.
    pub fn class(&self) -> (class: EntryClass)
        ensures
            class == classify(self@),
    {
        if self.is_symlink {
            if self.canonical.is_none() {
                EntryClass::BrokenLink
            } else if self.is_directory {
                EntryClass::LinkToDirectory
            } else {
                EntryClass::LinkToFile
            }
        } else if self.is_directory {
            EntryClass::Directory
        } else if is_executable(self.permission_bits) {
            EntryClass::Executable
        } else {
            EntryClass::Plain
        }
    }

    /// What stands behind the arrow of a symlink.
    pub fn target(&self) -> (text: &str)
        ensures
            text@ == target_text(self@),
    {
        match &self.canonical {
            Some(resolved) => resolved.as_str(),
            None => match &self.symlink_target {
                Some(link) => link.as_str(),
                None => {
                    proof {
                        reveal_strlit("");
                    }
                    let text = "";
                    assert(text@ =~= Seq::<char>::empty());
                    text
                },
            },
        }
    }
}

} // verus!
