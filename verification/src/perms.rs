//! File modes: the type of a file and its nine permission flags.

use vstd::prelude::*;
use vstd::string::StringExecFns;

verus! {

/// The bits of a mode that hold the type of the file.
pub const S_IFMT: u32 = 0o170000;

/// The type bits of a symbolic link.
pub const S_IFLNK: u32 = 0o120000;

/// The type bits of a regular file.
pub const S_IFREG: u32 = 0o100000;

/// The type bits of a directory.
pub const S_IFDIR: u32 = 0o040000;

/// The execute flags of owner, group and others.
pub const S_IXALL: u32 = 0o111;

/// The bits of a mode that hold the permissions: the nine flags of owner,
/// group and others, and the three flags set-user-id, set-group-id and
/// sticky above them.
pub const S_IPERMS: u32 = 0o7777;

/// The permission bits of a mode: the mode without the type of the file.
pub open spec fn spec_permissions_of(mode: u32) -> u32 {
    mode & S_IPERMS
}

/// The permission bits of a mode: the mode without the type of the file.
#[verifier::when_used_as_spec(spec_permissions_of)]
pub fn permissions_of(mode: u32) -> (bits: u32)
    ensures
        bits == spec_permissions_of(mode),
{
    mode & S_IPERMS
}

/// The character that stands for the type of a file: `l` for a symbolic
/// link, `d` for a directory, `-` for a regular file, `?` for anything else.
pub open spec fn type_char(perms: u32) -> char {
    let kind = perms & S_IFMT;
    if kind == S_IFLNK {
        'l'
    } else if kind == S_IFDIR {
        'd'
    } else if kind == S_IFREG {
        '-'
    } else {
        '?'
    }
}

/// The bit of the permission flag at `position`, counted from the owner's
/// read flag (0) to the others' execute flag (8).
pub open spec fn flag_mask(position: u32) -> u32 {
    0o400u32 >> position
}

/// The letter of the permission flag at `position`: `r`, `w`, `x` in turn.
pub open spec fn flag_letter(position: u32) -> char {
    if position % 3 == 0 {
        'r'
    } else if position % 3 == 1 {
        'w'
    } else {
        'x'
    }
}

/// The character shown for the permission flag at `position`: its letter
/// where the flag is set, `-` where it is not.
pub open spec fn flag_char(perms: u32, position: u32) -> char {
    if perms & flag_mask(position) != 0 {
        flag_letter(position)
    } else {
        '-'
    }
}

/// The first `count` permission flags of a mode.
pub open spec fn flag_chars(perms: u32, count: nat) -> Seq<char> {
    Seq::new(count, |i: int| flag_char(perms, i as u32))
}

/// The ten characters of a mode as `ls -l` shows it: the type character and
/// the nine permission flags.
pub open spec fn symbolic(perms: u32) -> Seq<char> {
    seq![type_char(perms)] + flag_chars(perms, 9)
}

/// Whether any of the three execute flags is set.
pub open spec fn spec_is_executable(perms: u32) -> bool {
    perms & S_IXALL != 0
}

/// Whether any of the three execute flags of a mode is set.
#[verifier::when_used_as_spec(spec_is_executable)]
pub fn is_executable(perms: u32) -> (executable: bool)
    ensures
        executable == spec_is_executable(perms),
{
    perms & S_IXALL != 0
}

/// The one-character text of the type of a file.
fn type_str(perms: u32) -> (text: &'static str)
    ensures
        text@ == seq![type_char(perms)],
{
    proof {
        reveal_strlit("l");
        reveal_strlit("d");
        reveal_strlit("-");
        reveal_strlit("?");
    }
    let kind: u32 = perms & S_IFMT;
    let text = if kind == S_IFLNK {
        "l"
    } else if kind == S_IFDIR {
        "d"
    } else if kind == S_IFREG {
        "-"
    } else {
        "?"
    };
    assert(text@ =~= seq![type_char(perms)]);
    text
}

/// The one-character text of the permission flag at `position`.
fn flag_str(perms: u32, position: u32) -> (text: &'static str)
    requires
        position < 9,
    ensures
        text@ == seq![flag_char(perms, position)],
{
    proof {
        reveal_strlit("r");
        reveal_strlit("w");
        reveal_strlit("x");
        reveal_strlit("-");
    }
    let text = if perms & (0o400u32 >> position) != 0 {
        if position % 3 == 0 {
            "r"
        } else if position % 3 == 1 {
            "w"
        } else {
            "x"
        }
    } else {
        "-"
    };
    assert(text@ =~= seq![flag_char(perms, position)]);
    text
}

/// Writes a mode as `ls -l` does: the type character followed by `rwx` for
/// owner, group and others, with `-` in place of each flag that is not set.
pub fn stringify_permissions(perms: u32) -> (text: String)
    ensures
        text@ == symbolic(perms),
{
    let mut text = String::new();
    text.append(type_str(perms));
    let mut position: u32 = 0;
    while position < 9
        invariant
            position <= 9,
            text@ == seq![type_char(perms)] + flag_chars(perms, position as nat),
        decreases 9 - position,
    {
        text.append(flag_str(perms, position));
        position = position + 1;
        assert(text@ =~= seq![type_char(perms)] + flag_chars(perms, position as nat));
    }
    text
}

} // verus!
