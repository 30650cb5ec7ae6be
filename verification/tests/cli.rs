use glyphwire::cli::{
    check_target, help, parse_arguments, surface_action, version_line, ArgumentError, Invocation,
    SurfaceAction, SurfaceFault, TargetError,
};

fn args(list: &[&str]) -> Vec<Vec<u8>> {
    list.iter().map(|a| a.as_bytes().to_vec()).collect()
}

#[test]
fn lib_help_needs_no_path() {
    assert_eq!(parse_arguments(&args(&["--help"])), Invocation::Help);
}

#[test]
fn lib_rejects_too_many_paths() {
    assert!(matches!(parse_arguments(&args(&["a", "b"])), Invocation::Invalid(_)));
}

#[test]
fn main_help_needs_no_path() {
    assert_eq!(parse_arguments(&args(&["--help"])), Invocation::Help);
}

#[test]
fn main_rejects_too_many_paths() {
    assert!(matches!(parse_arguments(&args(&["a", "b"])), Invocation::Invalid(_)));
}

#[test]
fn arguments_select_help_version_or_a_path() {
    assert_eq!(parse_arguments(&args(&[])), Invocation::Invalid(ArgumentError::MissingPath));
    assert_eq!(parse_arguments(&args(&["a", "b"])), Invocation::Invalid(ArgumentError::TooManyPaths));
    assert_eq!(parse_arguments(&args(&["-h"])), Invocation::Help);
    assert_eq!(parse_arguments(&args(&["-V"])), Invocation::Version);
    assert_eq!(parse_arguments(&args(&["--version"])), Invocation::Version);
    assert_eq!(
        parse_arguments(&args(&["README.md"])),
        Invocation::Open { gui_process: false, path_index: 0 }
    );
    assert_eq!(
        parse_arguments(&args(&["--glyphwire-gui-process", "."])),
        Invocation::Open { gui_process: true, path_index: 1 }
    );
    assert_eq!(
        parse_arguments(&args(&["--glyphwire-gui-process"])),
        Invocation::Invalid(ArgumentError::MissingPath)
    );
    assert_eq!(
        parse_arguments(&args(&["--glyphwire-gui-process", "--help"])),
        Invocation::Help
    );
    assert_eq!(ArgumentError::MissingPath.message(), "missing a directory or Markdown file");
    assert_eq!(ArgumentError::TooManyPaths.message(), "expected exactly one path");
}

#[test]
fn help_names_the_command() {
    let text = help("gw");
    assert!(text.starts_with("Glyphwire — a local Markdown editor and live preview\n\nUSAGE:\n    gw <PATH>\n"));
    assert!(text.contains("    gw .\n    gw README.md\n"));
    assert!(text.ends_with("The command returns immediately after launching the app."));
    assert_eq!(version_line("gw", "0.2.1"), "gw 0.2.1");
}

#[test]
fn targets_must_be_markdown_files_or_directories() {
    assert_eq!(check_target(b"/tmp/notes.md", true, false), Ok(()));
    assert_eq!(check_target(b"/tmp", false, true), Ok(()));
    assert_eq!(check_target(b"/tmp/a.txt", true, false), Err(TargetError::NotMarkdown));
    assert_eq!(check_target(b"/dev/null", false, false), Err(TargetError::NotFileOrDirectory));
    assert_eq!(TargetError::NotMarkdown.message("/tmp/a.txt"), "/tmp/a.txt is not a Markdown file");
    assert_eq!(
        TargetError::NotFileOrDirectory.message("/dev/null"),
        "/dev/null is not a file or directory"
    );
}

#[test]
fn invalidated_surfaces_are_reconfigured_and_timeouts_skip_a_frame() {
    for fault in [SurfaceFault::Lost, SurfaceFault::Outdated] {
        assert_eq!(surface_action(fault), SurfaceAction::RecreateSurface);
    }
    assert_eq!(surface_action(SurfaceFault::Timeout), SurfaceAction::SkipFrame);
    assert_eq!(surface_action(SurfaceFault::OutOfMemory), SurfaceAction::SkipFrame);
}
