//! Command-line decisions: the help text, what the arguments ask for, whether the
//! opened path is acceptable, and how the renderer answers a lost surface.

use vstd::prelude::*;
use crate::path::{markdown_path, is_markdown};

verus! {

pub open spec fn help_text(command_name: Seq<char>) -> Seq<char> {
    "Glyphwire \u{2014} a local Markdown editor and live preview\n\nUSAGE:\n    "@ + command_name
        + " <PATH>\n\nARGS:\n    <PATH>    A directory or Markdown file\n\nEXAMPLES:\n    "@
        + command_name + " .\n    "@ + command_name
        + " README.md\n\nThe command returns immediately after launching the app."@
}

/// The usage text shown for `--help` and after an argument error.
pub fn help(command_name: &str) -> (text: String)
    ensures
        text@ == help_text(command_name@),
{
    let mut text = "Glyphwire \u{2014} a local Markdown editor and live preview\n\nUSAGE:\n    ".to_owned();
    text.append(command_name);
    text.append(" <PATH>\n\nARGS:\n    <PATH>    A directory or Markdown file\n\nEXAMPLES:\n    ");
    text.append(command_name);
    text.append(" .\n    ");
    text.append(command_name);
    text.append(" README.md\n\nThe command returns immediately after launching the app.");
    text
}

/// The line printed for `--version`: the command name and the version.
pub fn version_line(command_name: &str, version: &str) -> (line: String)
    ensures
        line@ == command_name@ + " "@ + version@,
{
    let mut line = command_name.to_owned();
    line.append(" ");
    line.append(version);
    line
}

/// Why the arguments name no path.
#[derive(Clone, Copy, Debug, PartialEq, Eq, Structural)]
pub enum ArgumentError {
    MissingPath,
    TooManyPaths,
}

impl ArgumentError {
    pub fn message(self) -> (m: &'static str)
        ensures
            self == ArgumentError::MissingPath ==> m@ == "missing a directory or Markdown file"@,
            self == ArgumentError::TooManyPaths ==> m@ == "expected exactly one path"@,
    {
        match self {
            ArgumentError::MissingPath => "missing a directory or Markdown file",
            ArgumentError::TooManyPaths => "expected exactly one path",
        }
    }
}

/// What the command line asks for.
#[derive(Clone, Copy, Debug, PartialEq, Eq, Structural)]
pub enum Invocation {
    /// The arguments are wrong: print the message and the help, and fail.
    Invalid(ArgumentError),
    /// Print the help and succeed.
    Help,
    /// Print the version and succeed.
    Version,
    /// Open the path at `path_index` of the arguments: in this process when `gui_process`,
    /// otherwise by launching the window process.
    Open { gui_process: bool, path_index: usize },
}

pub open spec fn ascii(s: Seq<char>) -> Seq<u8> {
    s.map_values(|c: char| c as u8)
}

/// What the arguments after the program name ask for: the window-process flag comes
/// first when present; exactly one more argument is expected, which is `-h`/`--help`,
/// `-V`/`--version`, or the path to open.
pub open spec fn invocation_of(args: Seq<Seq<u8>>) -> Invocation {
    let gui = args.len() > 0 && args[0] == ascii("--glyphwire-gui-process"@);
    let rest = if gui { args.drop_first() } else { args };
    if rest.len() == 0 {
        Invocation::Invalid(ArgumentError::MissingPath)
    } else if rest.len() != 1 {
        Invocation::Invalid(ArgumentError::TooManyPaths)
    } else if rest[0] == ascii("-h"@) || rest[0] == ascii("--help"@) {
        Invocation::Help
    } else if rest[0] == ascii("-V"@) || rest[0] == ascii("--version"@) {
        Invocation::Version
    } else {
        Invocation::Open { gui_process: gui, path_index: if gui { 1 } else { 0 } }
    }
}

/// Whether the bytes `arg` spell the ASCII text `lit`.
fn spells(arg: &Vec<u8>, lit: &str) -> (eq: bool)
    requires
        vstd::string::is_ascii(lit),
    ensures
        eq == (arg@ == ascii(lit@)),
{
    let bytes = lit.as_bytes();
    proof {
        vstd::string::is_ascii_spec_bytes(lit);
        assert(bytes@ =~= ascii(lit@));
    }
    crate::workspace::bytes_equal(arg.as_slice(), bytes)
}

/// Decides what the arguments after the program name (their bytes) ask for.
pub fn parse_arguments(args: &Vec<Vec<u8>>) -> (inv: Invocation)
    ensures
        inv == invocation_of(args@.map_values(|a: Vec<u8>| a@)),
{
    let ghost views = args@.map_values(|a: Vec<u8>| a@);
    proof {
        reveal_strlit("--glyphwire-gui-process");
        reveal_strlit("-h");
        reveal_strlit("--help");
        reveal_strlit("-V");
        reveal_strlit("--version");
    }
    let gui = args.len() > 0 && spells(&args[0], "--glyphwire-gui-process");
    let first: usize = if gui { 1 } else { 0 };
    let count = args.len() - first;
    proof {
        let rest = if gui { views.drop_first() } else { views };
        assert(rest.len() == count);
        if count > 0 {
            assert(rest[0] == args@[first as int]@);
        }
    }
    if count == 0 {
        Invocation::Invalid(ArgumentError::MissingPath)
    } else if count != 1 {
        Invocation::Invalid(ArgumentError::TooManyPaths)
    } else if spells(&args[first], "-h") || spells(&args[first], "--help") {
        Invocation::Help
    } else if spells(&args[first], "-V") || spells(&args[first], "--version") {
        Invocation::Version
    } else {
        Invocation::Open { gui_process: gui, path_index: first }
    }
}

/// Why the path to open was refused.
#[derive(Clone, Copy, Debug, PartialEq, Eq, Structural)]
pub enum TargetError {
    NotMarkdown,
    NotFileOrDirectory,
}

impl TargetError {
    /// The message for the path shown as `shown`.
    pub fn message(self, shown: &str) -> (m: String)
        ensures
            self == TargetError::NotMarkdown ==> m@ == shown@ + " is not a Markdown file"@,
            self == TargetError::NotFileOrDirectory ==> m@ == shown@ + " is not a file or directory"@,
    {
        let mut m = shown.to_owned();
        match self {
            TargetError::NotMarkdown => m.append(" is not a Markdown file"),
            TargetError::NotFileOrDirectory => m.append(" is not a file or directory"),
        }
        m
    }
}

/// Whether the resolved path can be opened: a file must be Markdown, and anything else
/// must be a directory.
pub open spec fn target_check(path: Seq<u8>, is_file: bool, is_dir: bool) -> Result<(), TargetError> {
    if is_file && !markdown_path(path) {
        Err(TargetError::NotMarkdown)
    } else if !is_file && !is_dir {
        Err(TargetError::NotFileOrDirectory)
    } else {
        Ok(())
    }
}

pub fn check_target(path: &[u8], is_file: bool, is_dir: bool) -> (r: Result<(), TargetError>)
    ensures
        r == target_check(path@, is_file, is_dir),
{
    if is_file && !is_markdown(path) {
        Err(TargetError::NotMarkdown)
    } else if !is_file && !is_dir {
        Err(TargetError::NotFileOrDirectory)
    } else {
        Ok(())
    }
}

/// A failure to get the next frame of the window's surface.
#[derive(Clone, Copy, Debug, PartialEq, Eq, Structural)]
pub enum SurfaceFault {
    Lost,
    Outdated,
    Timeout,
    OutOfMemory,
    Other,
}

/// How the renderer answers a surface failure.
#[derive(Clone, Copy, Debug, PartialEq, Eq, Structural)]
pub enum SurfaceAction {
    RecreateSurface,
    SkipFrame,
}

/// A surface invalidated by a display change or a resume is recreated; any other failure
/// skips the frame.
pub fn surface_action(fault: SurfaceFault) -> (action: SurfaceAction)
    ensures
        action == (if fault == SurfaceFault::Lost || fault == SurfaceFault::Outdated {
            SurfaceAction::RecreateSurface
        } else {
            SurfaceAction::SkipFrame
        }),
{
    match fault {
        SurfaceFault::Lost | SurfaceFault::Outdated => SurfaceAction::RecreateSurface,
        _ => SurfaceAction::SkipFrame,
    }
}

} // verus!
