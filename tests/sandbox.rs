use yfass::sandbox::{
    bwrap_args, seccomp_actions, SandboxConfig, SeccompAction, SyscallFilterMode,
};

#[test]
fn default_config_args() {
    let c = SandboxConfig::default();
    let args = bwrap_args(&c, None);
    assert_eq!(
        args,
        vec![
            "--unshare-all",
            "--share-net",
            "--new-session",
            "--ro-bind",
            "./",
            "/.__private_yfass_contents",
            "--chdir",
            "/.__private_yfass_contents",
            "--die-with-parent",
            "--proc",
            "/proc",
            "--dev",
            "/dev",
            "--",
            "",
        ]
    );
}

#[test]
fn full_config_args_in_order() {
    let mut c = SandboxConfig::default();
    c.command = "./server".to_owned();
    c.args = vec!["-v".to_owned(), "--port=1".to_owned()];
    c.ro_entries = vec![
        ("/usr/lib".to_owned(), None),
        ("/etc/ssl".to_owned(), Some("/ssl".to_owned())),
    ];
    c.envs = vec![("A".to_owned(), Some("1".to_owned())), ("B".to_owned(), None)];
    c.platform_ext.mount_procfs = false;
    c.platform_ext.mount_devtmpfs = false;
    c.platform_ext.mount_tmpfs = true;
    let args = bwrap_args(&c, Some(17));
    assert_eq!(
        args,
        vec![
            "--unshare-all",
            "--share-net",
            "--new-session",
            "--ro-bind",
            "./",
            "/.__private_yfass_contents",
            "--chdir",
            "/.__private_yfass_contents",
            "--die-with-parent",
            "--tmpfs",
            "/tmp",
            "--ro-bind-try",
            "/usr/lib",
            "/usr/lib",
            "--ro-bind-try",
            "/etc/ssl",
            "/ssl",
            "--setenv",
            "A",
            "1",
            "--unsetenv",
            "B",
            "--seccomp",
            "17",
            "--",
            "./server",
            "-v",
            "--port=1",
        ]
    );
}

#[test]
fn seccomp_fd_is_decimal() {
    let c = SandboxConfig::default();
    let args = bwrap_args(&c, Some(0));
    assert!(args.windows(2).any(|w| w[0] == "--seccomp" && w[1] == "0"));
    let args = bwrap_args(&c, Some(4_294_967_295));
    assert!(args.windows(2).any(|w| w[0] == "--seccomp" && w[1] == "4294967295"));
}

#[test]
fn seccomp_actions_by_mode() {
    assert_eq!(
        seccomp_actions(SyscallFilterMode::Deny),
        (SeccompAction::Allow, SeccompAction::DenyPermission)
    );
    assert_eq!(
        seccomp_actions(SyscallFilterMode::Allow),
        (SeccompAction::DenyPermission, SeccompAction::Allow)
    );
    assert_eq!(SyscallFilterMode::default(), SyscallFilterMode::Deny);
}

#[test]
fn decimal_text() {
    assert_eq!(yfass::sandbox::decimal_string(0), "0");
    assert_eq!(yfass::sandbox::decimal_string(8080), "8080");
    assert_eq!(yfass::sandbox::decimal_string(u32::MAX), "4294967295");
}
