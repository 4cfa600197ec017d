use poki_launcher::runner::parse_exec;

#[test]
fn exec_line_splits_at_spaces() {
    let (cmd, args) = parse_exec("firefox --new-window %u");
    assert_eq!(cmd, "firefox");
    assert_eq!(args, vec!["--new-window", "%u"]);
}

#[test]
fn exec_line_without_arguments() {
    let (cmd, args) = parse_exec("gedit");
    assert_eq!(cmd, "gedit");
    assert!(args.is_empty());
    let (cmd, args) = parse_exec("");
    assert_eq!(cmd, "");
    assert!(args.is_empty());
}

#[test]
fn exec_line_double_space_gives_empty_argument() {
    let (cmd, args) = parse_exec("a  b");
    assert_eq!(cmd, "a");
    assert_eq!(args, vec!["", "b"]);
}
