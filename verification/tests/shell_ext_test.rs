use recoll_next::windows::shell_ext::ShellExtension;

#[test]
fn registry_path_contains_app_name() {
    let ext = ShellExtension::new("C:\\Program Files\\RecollNext\\rn-cli.exe");
    assert!(ext.registry_path().contains("RecollNext"));
}

#[test]
fn menu_text_is_search_with_recoll() {
    let ext = ShellExtension::new("C:\\rn-cli.exe");
    assert_eq!(ext.menu_text(), "Search with Recoll Next");
}

#[test]
fn command_line_contains_exe_and_placeholder() {
    let ext = ShellExtension::new("C:\\bin\\rn-cli.exe");
    let cmd = ext.command_line();
    assert!(cmd.contains("C:\\bin\\rn-cli.exe"));
    assert!(cmd.contains("%V"));
}

#[test]
fn registry_path_and_command_line_are_exact() {
    let ext = ShellExtension::new("C:\\bin\\rn-cli.exe");
    assert_eq!(ext.registry_path(), "Directory\\Background\\shell\\RecollNext");
    assert_eq!(ext.command_line(), "\"C:\\bin\\rn-cli.exe\" search --path \"%V\"");
}
