//! The text of a line: the tree glyphs, the annotation in brackets, the name
//! of the entry and the target of a symlink.

use vstd::prelude::*;
use vstd::string::StringExecFns;
use vstd::string::StrSliceExecFns;
use crate::color::{painted, ANSIColor};
use crate::config::{Config, PathStyle, PermissionStyle, SizeStyle};
use crate::entry::{classify, target_text, Entry, EntryClass, EntryView};
use crate::perms::{permissions_of, spec_permissions_of, stringify_permissions, symbolic};
use crate::size::{convert, human_size};
use crate::text::{decimal, decimal_string, octal, octal_string, pad_left, push_padded};

verus! {

/// The glyph in front of an entry: the elbow for the last of its siblings,
/// the tee for any other.
pub open spec fn entry_connector(last: bool) -> Seq<char> {
    if last {
        "└── "@
    } else {
        "├── "@
    }
}

/// What an entry adds to the prefix of its children: blanks below the last
/// of its siblings, the pipe below any other.
pub open spec fn child_continuation(last: bool) -> Seq<char> {
    if last {
        "    "@
    } else {
        "│   "@
    }
}

/// The glyph, or nothing where the tree is not drawn.
pub open spec fn drawn(indent: bool, glyph: Seq<char>) -> Seq<char> {
    if indent {
        glyph
    } else {
        Seq::empty()
    }
}

/// The two glyphs of the entry at `index` among `count` siblings: the one in
/// front of its own name, and the one that it adds to the prefix of its
/// children.
pub fn connectors(index: usize, count: usize) -> (glyphs: (&'static str, &'static str))
    ensures
        glyphs.0@ == entry_connector(index + 1 == count),
        glyphs.1@ == child_continuation(index + 1 == count),
{
    if count > 0 && index == count - 1 {
        ("└── ", "    ")
    } else {
        ("├── ", "│   ")
    }
}

/// The two glyphs of an entry, empty where the tree is not drawn.
pub fn glyphs_for(indent: bool, last: bool) -> (glyphs: (&'static str, &'static str))
    ensures
        glyphs.0@ == drawn(indent, entry_connector(last)),
        glyphs.1@ == drawn(indent, child_continuation(last)),
{
    if !indent {
        proof {
            reveal_strlit("");
        }
        let nothing = "";
        assert(nothing@ =~= Seq::<char>::empty());
        (nothing, nothing)
    } else if last {
        connectors(0, 1)
    } else {
        connectors(0, 2)
    }
}

/// The path of `name` inside `directory`: the two joined by a slash, unless
/// the directory is empty or ends in a slash already.
pub open spec fn joined(directory: Seq<char>, name: Seq<char>) -> Seq<char> {
    if directory.len() == 0 {
        name
    } else if directory.last() == '/' {
        directory + name
    } else {
        directory + seq!['/'] + name
    }
}

/// The name under which an entry of a directory is shown. `directory` is the
/// canonical path of the directory; without it the canonical style falls
/// back on the relative path.
pub open spec fn shown_name(
    entry: EntryView,
    style: PathStyle,
    directory: Option<Seq<char>>,
) -> Seq<char> {
    match style {
        PathStyle::Name => entry.name,
        PathStyle::RelativePath => entry.path,
        PathStyle::Canonical => match directory {
            Some(parent) => joined(parent, entry.name),
            None => entry.path,
        },
    }
}

/// The name under which the root is shown: the argument as it was given, or
/// in the canonical style its canonical path where that resolves.
pub open spec fn root_name(root: EntryView, style: PathStyle) -> Seq<char> {
    match style {
        PathStyle::Canonical => match root.canonical {
            Some(resolved) => resolved,
            None => root.path,
        },
        _ => root.path,
    }
}

/// The part of the annotation that shows the mode: symbolically the type
/// and the nine flags and a blank, numerically the permission bits, without
/// the type of the file, in base eight.
pub open spec fn permission_part(mode: u32, style: PermissionStyle) -> Seq<char> {
    match style {
        PermissionStyle::Off => Seq::empty(),
        PermissionStyle::Symbolic => symbolic(mode) + seq![' '],
        PermissionStyle::Numeric => octal(spec_permissions_of(mode) as nat),
    }
}

/// The part of the annotation that shows the size: the bytes in a field of
/// five characters, a scaled size in a field of six, and ` iB` behind a size
/// that is scaled by 1000.
pub open spec fn size_part(size: u64, style: SizeStyle) -> Seq<char> {
    match style {
        SizeStyle::Off => Seq::empty(),
        SizeStyle::Bytes => pad_left(decimal(size as nat), 5),
        SizeStyle::Human1024 => pad_left(human_size(size as nat, 1024), 6),
        SizeStyle::Human1000 => pad_left(human_size(size as nat, 1000), 6) + " iB"@,
    }
}

/// The annotation in front of a name: mode and size in square brackets and a
/// blank, or nothing where neither is shown.
pub open spec fn annotation(
    entry: EntryView,
    permissions: PermissionStyle,
    size: SizeStyle,
) -> Seq<char> {
    if permissions == PermissionStyle::Off && size == SizeStyle::Off {
        Seq::empty()
    } else {
        seq!['['] + permission_part(entry.permission_bits, permissions) + size_part(
            entry.size_bytes,
            size,
        ) + seq![']', ' ']
    }
}

/// The arrow between a symlink and its target.
pub open spec fn arrow() -> Seq<char> {
    " -> "@
}

/// The name of an entry as a line shows it.
///
/// Without colors it is the name, followed for a symlink by the arrow and
/// the target. With colors the category of the entry decides: a directory is
/// yellow, an executable file green, a plain file magenta; a symlink with a
/// target is cyan, its target yellow where it is a directory and green where
/// it is not; a broken symlink is red and its target stays plain.
pub open spec fn rendered(name: Seq<char>, entry: EntryView, colorize: bool) -> Seq<char> {
    if !colorize {
        if entry.is_symlink {
            name + arrow() + target_text(entry)
        } else {
            name
        }
    } else {
        match classify(entry) {
            EntryClass::Directory => painted(ANSIColor::Yellow, name),
            EntryClass::LinkToDirectory => painted(ANSIColor::Cyan, name) + arrow() + painted(
                ANSIColor::Yellow,
                target_text(entry),
            ),
            EntryClass::LinkToFile => painted(ANSIColor::Cyan, name) + arrow() + painted(
                ANSIColor::Green,
                target_text(entry),
            ),
            EntryClass::BrokenLink => painted(ANSIColor::Red, name) + arrow() + target_text(entry),
            EntryClass::Executable => painted(ANSIColor::Green, name),
            EntryClass::Plain => painted(ANSIColor::Magenta, name),
        }
    }
}

/// The line of the root: its annotation and its name.
pub open spec fn root_line(config: Config, root: EntryView) -> Seq<char> {
    annotation(root, config.show_permissions, config.show_size) + rendered(
        root_name(root, config.root_style),
        root,
        config.colorize,
    )
}

/// The line of an entry of a directory: the prefix of the directory, the
/// connector, the annotation and the name.
pub open spec fn entry_line(
    config: Config,
    prefix: Seq<char>,
    directory: Option<Seq<char>>,
    entry: EntryView,
    last: bool,
) -> Seq<char> {
    prefix + drawn(config.indent, entry_connector(last)) + annotation(
        entry,
        config.show_permissions,
        config.show_size,
    ) + rendered(shown_name(entry, config.path_style, directory), entry, config.colorize)
}

/// The prefix of the children of an entry.
pub open spec fn child_prefix(config: Config, prefix: Seq<char>, last: bool) -> Seq<char> {
    prefix + drawn(config.indent, child_continuation(last))
}

/// The line that stands for a directory with too many entries.
pub open spec fn limit_line(prefix: Seq<char>, count: nat) -> Seq<char> {
    prefix + "└── "@ + seq!['['] + decimal(count)
        + " entries exceeded filelimit, not printing dir]"@
}

/// The line that stands for the content of a symlink that is not followed
/// because it leads to a directory already recorded.
pub open spec fn cycle_line(prefix: Seq<char>) -> Seq<char> {
    prefix + "└── "@ + "[symlink cycle detected, will not expand it]"@
}

/// The line that stands for a directory that cannot be read.
pub open spec fn unreadable_line(prefix: Seq<char>) -> Seq<char> {
    prefix + "└── "@ + "[error]"@
}

/// The line below a root that is no directory.
pub open spec fn not_directory_line() -> Seq<char> {
    "    "@ + "└── "@ + "[given base is not a directory]"@
}

/// Appends `text` in the given color to `out`.
fn push_painted(out: &mut String, color: ANSIColor, text: &str)
    ensures
        final(out)@ == old(out)@ + painted(color, text@),
{
    out.append(color.as_string());
    out.append(text);
    out.append(ANSIColor::Reset.as_string());
    assert(out@ =~= old(out)@ + painted(color, text@));
}

/// The path of `name` inside `directory`.
pub fn join_path(directory: &str, name: &str) -> (path: String)
    ensures
        path@ == joined(directory@, name@),
{
    let length: usize = directory.unicode_len();
    let mut path = String::new();
    if length > 0 {
        path.append(directory);
        if directory.get_char(length - 1) != '/' {
            proof {
                reveal_strlit("/");
            }
            path.append("/");
        }
    }
    path.append(name);
    assert(path@ =~= joined(directory@, name@));
    path
}

/// The name under which an entry of a directory is shown.
pub fn entry_name(entry: &Entry, style: PathStyle, directory: &Option<String>) -> (name: String)
    ensures
        name@ == shown_name(entry@, style, crate::entry::text_of(*directory)),
{
    match style {
        PathStyle::Name => entry.name.clone(),
        PathStyle::RelativePath => entry.path.clone(),
        PathStyle::Canonical => match directory {
            Some(parent) => join_path(parent.as_str(), entry.name.as_str()),
            None => entry.path.clone(),
        },
    }
}

/// The name under which the root is shown.
pub fn name_of_root(root: &Entry, style: PathStyle) -> (name: String)
    ensures
        name@ == root_name(root@, style),
{
    match style {
        PathStyle::Canonical => match &root.canonical {
            Some(resolved) => resolved.clone(),
            None => root.path.clone(),
        },
        _ => root.path.clone(),
    }
}

/// Appends the annotation of an entry to `out`.
pub fn push_annotation(
    out: &mut String,
    entry: &Entry,
    permissions: PermissionStyle,
    size: SizeStyle,
)
    ensures
        final(out)@ == old(out)@ + annotation(entry@, permissions, size),
{
    if matches!(permissions, PermissionStyle::Off) && matches!(size, SizeStyle::Off) {
        assert(out@ =~= old(out)@ + annotation(entry@, permissions, size));
        return ;
    }
    proof {
        reveal_strlit("[");
        reveal_strlit(" ");
        reveal_strlit("] ");
    }
    out.append("[");
    match permissions {
        PermissionStyle::Off => {},
        PermissionStyle::Symbolic => {
            let mode = stringify_permissions(entry.permission_bits);
            out.append(mode.as_str());
            out.append(" ");
        },
        PermissionStyle::Numeric => {
            let bits = octal_string(permissions_of(entry.permission_bits));
            out.append(bits.as_str());
        },
    }
    assert(out@ =~= old(out)@ + seq!['['] + permission_part(entry.permission_bits, permissions));
    match size {
        SizeStyle::Off => {},
        SizeStyle::Bytes => {
            let bytes = decimal_string(entry.size_bytes);
            push_padded(out, bytes.as_str(), 5);
        },
        SizeStyle::Human1024 => {
            let scaled = convert(entry.size_bytes, 1024);
            push_padded(out, scaled.as_str(), 6);
        },
        SizeStyle::Human1000 => {
            let scaled = convert(entry.size_bytes, 1000);
            push_padded(out, scaled.as_str(), 6);
            out.append(" iB");
        },
    }
    assert(out@ =~= old(out)@ + seq!['['] + permission_part(entry.permission_bits, permissions)
        + size_part(entry.size_bytes, size));
    out.append("] ");
    assert(out@ =~= old(out)@ + annotation(entry@, permissions, size));
}

/// Appends the name of an entry, as a line shows it, to `out`.
pub fn push_rendered(out: &mut String, name: &str, entry: &Entry, colorize: bool)
    ensures
        final(out)@ == old(out)@ + rendered(name@, entry@, colorize),
{
    let target = entry.target();
    if !colorize {
        out.append(name);
        if entry.is_symlink {
            out.append(" -> ");
            out.append(target);
        }
        assert(out@ =~= old(out)@ + rendered(name@, entry@, colorize));
        return ;
    }
    match entry.class() {
        EntryClass::Directory => {
            push_painted(out, ANSIColor::Yellow, name);
        },
        EntryClass::LinkToDirectory => {
            push_painted(out, ANSIColor::Cyan, name);
            out.append(" -> ");
            push_painted(out, ANSIColor::Yellow, target);
        },
        EntryClass::LinkToFile => {
            push_painted(out, ANSIColor::Cyan, name);
            out.append(" -> ");
            push_painted(out, ANSIColor::Green, target);
        },
        EntryClass::BrokenLink => {
            push_painted(out, ANSIColor::Red, name);
            out.append(" -> ");
            out.append(target);
        },
        EntryClass::Executable => {
            push_painted(out, ANSIColor::Green, name);
        },
        EntryClass::Plain => {
            push_painted(out, ANSIColor::Magenta, name);
        },
    }
    assert(out@ =~= old(out)@ + rendered(name@, entry@, colorize));
}

/// The line of the root.
pub fn line_of_root(config: &Config, root: &Entry) -> (line: String)
    ensures
        line@ == root_line(*config, root@),
{
    let mut line = String::new();
    push_annotation(&mut line, root, config.show_permissions, config.show_size);
    let name = name_of_root(root, config.root_style);
    push_rendered(&mut line, name.as_str(), root, config.colorize);
    assert(line@ =~= root_line(*config, root@));
    line
}

/// The line of an entry of a directory.
pub fn line_of_entry(
    config: &Config,
    prefix: &str,
    directory: &Option<String>,
    entry: &Entry,
    last: bool,
) -> (line: String)
    ensures
        line@ == entry_line(*config, prefix@, crate::entry::text_of(*directory), entry@, last),
{
    let mut line = String::new();
    line.append(prefix);
    line.append(glyphs_for(config.indent, last).0);
    push_annotation(&mut line, entry, config.show_permissions, config.show_size);
    let name = entry_name(entry, config.path_style, directory);
    push_rendered(&mut line, name.as_str(), entry, config.colorize);
    assert(line@ =~= entry_line(
        *config,
        prefix@,
        crate::entry::text_of(*directory),
        entry@,
        last,
    ));
    line
}

/// The prefix of the children of an entry.
pub fn prefix_of_children(config: &Config, prefix: &str, last: bool) -> (longer: String)
    ensures
        longer@ == child_prefix(*config, prefix@, last),
{
    let mut longer = String::new();
    longer.append(prefix);
    longer.append(glyphs_for(config.indent, last).1);
    assert(longer@ =~= child_prefix(*config, prefix@, last));
    longer
}

/// The line that stands for a directory with too many entries.
pub fn line_of_limit(prefix: &str, count: usize) -> (line: String)
    ensures
        line@ == limit_line(prefix@, count as nat),
{
    proof {
        reveal_strlit("[");
    }
    let mut line = String::new();
    line.append(prefix);
    line.append("└── ");
    line.append("[");
    let number = decimal_string(count as u64);
    line.append(number.as_str());
    line.append(" entries exceeded filelimit, not printing dir]");
    assert(line@ =~= limit_line(prefix@, count as nat));
    line
}

/// The line that stands for the content of a symlink that is not followed.
pub fn line_of_cycle(prefix: &str) -> (line: String)
    ensures
        line@ == cycle_line(prefix@),
{
    let mut line = String::new();
    line.append(prefix);
    line.append("└── ");
    line.append("[symlink cycle detected, will not expand it]");
    assert(line@ =~= cycle_line(prefix@));
    line
}

/// The line that stands for a directory that cannot be read.
pub fn line_of_unreadable(prefix: &str) -> (line: String)
    ensures
        line@ == unreadable_line(prefix@),
{
    let mut line = String::new();
    line.append(prefix);
    line.append("└── ");
    line.append("[error]");
    assert(line@ =~= unreadable_line(prefix@));
    line
}

/// The line below a root that is no directory.
pub fn line_of_not_directory() -> (line: String)
    ensures
        line@ == not_directory_line(),
{
    let mut line = String::new();
    line.append("    ");
    line.append("└── ");
    line.append("[given base is not a directory]");
    assert(line@ =~= not_directory_line());
    line
}

} // verus!
