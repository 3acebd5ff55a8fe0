//! The command surface: what a given argument list asks for, once it is known
//! what the first argument leads to on disk.

use crate::text::same_text;
use vstd::prelude::*;
use vstd::string::*;

verus! {

/// What a path leads to.
#[derive(Clone, Copy, Debug, PartialEq, Eq, Structural)]
pub enum PathKind {
    /// Nothing exists at the path.
    Missing,
    /// Something exists there that is not a directory.
    File,
    /// A directory.
    Directory,
}

/// What the program is asked to do.
pub enum Request {
    /// Report the totals and the listing of the directory at `path`.
    Summarize { path: Seq<char> },
    /// Report the size of the file at `path`.
    FileSize { path: Seq<char> },
    /// List the files in `root` whose name ends with `suffix`.
    FilterBySuffix { root: Seq<char>, suffix: Seq<char> },
    /// List the entries in `root` whose name holds `text`.
    FilterByName { root: Seq<char>, text: Seq<char> },
    /// Print the name and version of the program.
    Version,
    /// Print how the program is used.
    Help,
    /// The directory named as root does not exist.
    MissingRoot { name: Seq<char> },
}

/// What the program is asked to do, in machine values.
#[derive(Clone, Copy, Debug, PartialEq, Eq)]
pub enum Command<'a> {
    /// Report the totals and the listing of the directory at `path`.
    Summarize { path: &'a str },
    /// Report the size of the file at `path`.
    FileSize { path: &'a str },
    /// List the files in `root` whose name ends with `suffix`.
    FilterBySuffix { root: &'a str, suffix: &'a str },
    /// List the entries in `root` whose name holds `text`.
    FilterByName { root: &'a str, text: &'a str },
    /// Print the name and version of the program.
    Version,
    /// Print how the program is used.
    Help,
    /// The directory named as root does not exist.
    MissingRoot { name: &'a str },
}

impl<'a> View for Command<'a> {
    type V = Request;

    open spec fn view(&self) -> Request {
        match self {
            Command::Summarize { path } => Request::Summarize { path: path@ },
            Command::FileSize { path } => Request::FileSize { path: path@ },
            Command::FilterBySuffix { root, suffix } => Request::FilterBySuffix {
                root: root@,
                suffix: suffix@,
            },
            Command::FilterByName { root, text } => Request::FilterByName {
                root: root@,
                text: text@,
            },
            Command::Version => Request::Version,
            Command::Help => Request::Help,
            Command::MissingRoot { name } => Request::MissingRoot { name: name@ },
        }
    }
}

/// Whether `arg` is a wild-card query, that is, whether it begins with an asterisk.
pub open spec fn spec_is_wild_card(arg: Seq<char>) -> bool {
    arg.len() > 0 && arg[0] == '*'
}

/// What a single argument asks for, where `kind` says what the argument
/// leads to when read as a path. A wild card is tried first, then an
/// existing path, then the flags; any other text is searched for in the
/// names of the current directory.
pub open spec fn request_for(arg: Seq<char>, kind: PathKind) -> Request {
    if spec_is_wild_card(arg) {
        Request::FilterBySuffix { root: "."@, suffix: arg.skip(1) }
    } else if kind == PathKind::Directory {
        Request::Summarize { path: arg }
    } else if kind == PathKind::File {
        Request::FileSize { path: arg }
    } else if arg == "--version"@ {
        Request::Version
    } else if arg == "--help"@ || arg == "-?"@ {
        Request::Help
    } else {
        Request::FilterByName { root: "."@, text: arg }
    }
}

/// What an argument list asks for, where `kind` says what the first argument
/// leads to when read as a path, or the current directory where there is no
/// argument. Without arguments the current directory is summarized. With two,
/// the first names the root and the second is the query; a first argument
/// that is no directory is then an error.
pub open spec fn request_for_args(
    first: Option<Seq<char>>,
    second: Option<Seq<char>>,
    kind: PathKind,
) -> Request {
    match first {
        None => request_for("."@, kind),
        Some(root) => match second {
            None => request_for(root, kind),
            Some(query) => if kind != PathKind::Directory {
                Request::MissingRoot { name: root }
            } else if spec_is_wild_card(query) {
                Request::FilterBySuffix { root, suffix: query.skip(1) }
            } else {
                Request::FilterByName { root, text: query }
            },
        },
    }
}

/// The status with which the program ends after a request: 1 where a named
/// root does not exist, else 0.
pub open spec fn spec_exit_code(r: Request) -> int {
    if r is MissingRoot {
        1
    } else {
        0
    }
}

/// The plain values of an argument that may be absent.
pub open spec fn arg_view(arg: Option<&str>) -> Option<Seq<char>> {
    match arg {
        Some(s) => Some(s@),
        None => None,
    }
}

/// Tells whether the argument is a wild-card query.
pub fn is_wild_card(arg: &str) -> (b: bool)
    ensures
        b == spec_is_wild_card(arg@),
{
    !arg.is_empty() && arg.get_char(0) == '*'
}

/// The text that a wild-card query asks names to end with: all that follows
/// the asterisk.
fn wild_card_suffix(arg: &str) -> (suffix: &str)
    requires
        spec_is_wild_card(arg@),
    ensures
        suffix@ == arg@.skip(1),
{
    let n: usize = arg.unicode_len();
    let suffix = arg.substring_char(1, n);
    assert(arg@.subrange(1, n as int) =~= arg@.skip(1));
    suffix
}

/// Decides what a single argument asks for.
pub fn analyse_arg<'a>(arg: &'a str, kind: PathKind) -> (cmd: Command<'a>)
    ensures
        cmd@ == request_for(arg@, kind),
{
    if is_wild_card(arg) {
        Command::FilterBySuffix { root: ".", suffix: wild_card_suffix(arg) }
    } else if kind == PathKind::Directory {
        Command::Summarize { path: arg }
    } else if kind == PathKind::File {
        Command::FileSize { path: arg }
    } else if same_text(arg, "--version") {
        Command::Version
    } else if same_text(arg, "--help") || same_text(arg, "-?") {
        Command::Help
    } else {
        Command::FilterByName { root: ".", text: arg }
    }
}

/// Decides what an argument list asks for.
pub fn analyse_args<'a>(first: Option<&'a str>, second: Option<&'a str>, kind: PathKind) -> (cmd:
    Command<'a>)
    ensures
        cmd@ == request_for_args(arg_view(first), arg_view(second), kind),
{
    match first {
        None => analyse_arg(".", kind),
        Some(root) => match second {
            None => analyse_arg(root, kind),
            Some(query) => {
                if kind != PathKind::Directory {
                    Command::MissingRoot { name: root }
                } else if is_wild_card(query) {
                    Command::FilterBySuffix { root, suffix: wild_card_suffix(query) }
                } else {
                    Command::FilterByName { root, text: query }
                }
            },
        },
    }
}

impl<'a> Command<'a> {
    /// The status with which the program ends after this command.
    pub fn exit_code(&self) -> (code: i32)
        ensures
            code == spec_exit_code(self@),
    {
        match self {
            Command::MissingRoot { .. } => 1,
            _ => 0,
        }
    }
}

} // verus!
