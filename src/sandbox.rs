//! Sandbox configuration and construction of the `bwrap` command line.
use vstd::prelude::*;

verus! {

/// Mode of syscall filtering. The default mode is [`SyscallFilterMode::Deny`].
#[derive(Debug, Clone, Copy, PartialEq, Eq, Structural)]
pub enum SyscallFilterMode {
    /// Allowlist mode.
    Allow,
    /// Denylist mode.
    Deny,
}

impl Default for SyscallFilterMode {
    fn default() -> (r: Self)
        ensures
            r == SyscallFilterMode::Deny,
    {
        SyscallFilterMode::Deny
    }
}

/// Action of a seccomp rule.
#[derive(Debug, Clone, Copy, PartialEq, Eq, Structural)]
pub enum SeccompAction {
    /// Let the syscall through.
    Allow,
    /// Fail the syscall with `EPERM`.
    DenyPermission,
}

/// Default action of the filter and action of each listed syscall, for a filter mode.
///
/// In denylist mode everything is allowed but the listed syscalls; in allowlist mode the
/// reverse.
pub fn seccomp_actions(mode: SyscallFilterMode) -> (r: (SeccompAction, SeccompAction))
    ensures
        mode == SyscallFilterMode::Deny ==> r == (SeccompAction::Allow,
        SeccompAction::DenyPermission),
        mode == SyscallFilterMode::Allow ==> r == (SeccompAction::DenyPermission,
        SeccompAction::Allow),
{
    match mode {
        SyscallFilterMode::Deny => (SeccompAction::Allow, SeccompAction::DenyPermission),
        SyscallFilterMode::Allow => (SeccompAction::DenyPermission, SeccompAction::Allow),
    }
}

/// Linux-specific configuration of a sandbox.
#[derive(Debug)]
pub struct SandboxConfigExt {
    /// Allowlist or denylist mode of syscall filtering.
    pub syscall_filter_mode: SyscallFilterMode,
    /// List of syscall names to be filtered.
    pub syscall_filter: Vec<String>,
    /// Whether to provide procfs at `/proc`.
    pub mount_procfs: bool,
    /// Whether to provide _a new_ devtmpfs at `/dev`.
    pub mount_devtmpfs: bool,
    /// Whether to provide _a new_ tmpfs at `/tmp`.
    pub mount_tmpfs: bool,
}

impl Default for SandboxConfigExt {
    fn default() -> (r: Self)
        ensures
            r.syscall_filter_mode == SyscallFilterMode::Deny,
            r.syscall_filter@.len() == 0,
            r.mount_procfs,
            r.mount_devtmpfs,
            !r.mount_tmpfs,
    {
        SandboxConfigExt {
            syscall_filter_mode: SyscallFilterMode::Deny,
            syscall_filter: Vec::new(),
            mount_procfs: true,
            mount_devtmpfs: true,
            mount_tmpfs: false,
        }
    }
}

/// Configuration of a sandbox.
#[derive(Debug)]
pub struct SandboxConfig {
    /// Command to be executed in the sandbox.
    pub command: String,
    /// Arguments to be passed to the command.
    pub args: Vec<String>,
    /// Read-only filesystem entries: host path, and the path in the sandbox or `None` to keep
    /// the same path.
    pub ro_entries: Vec<(String, Option<String>)>,
    /// Environment overrides: name, and the value or `None` to remove the inherited variable.
    pub envs: Vec<(String, Option<String>)>,
    /// Whether to inherit stdout from the host system.
    pub inherit_stdout: bool,
    /// Platform-specific configuration extension of the sandbox.
    pub platform_ext: SandboxConfigExt,
}

impl Default for SandboxConfig {
    fn default() -> (r: Self)
        ensures
            r.command@.len() == 0,
            r.args@.len() == 0,
            r.ro_entries@.len() == 0,
            r.envs@.len() == 0,
            !r.inherit_stdout,
            r.platform_ext.syscall_filter_mode == SyscallFilterMode::Deny,
            r.platform_ext.syscall_filter@.len() == 0,
            r.platform_ext.mount_procfs,
            r.platform_ext.mount_devtmpfs,
            !r.platform_ext.mount_tmpfs,
    {
        SandboxConfig {
            command: String::new(),
            args: Vec::new(),
            ro_entries: Vec::new(),
            envs: Vec::new(),
            inherit_stdout: false,
            platform_ext: SandboxConfigExt::default(),
        }
    }
}

/// Sandbox backend that runs functions under `bwrap` (bubblewrap) on Linux.
#[derive(Debug, Clone, Copy, Default)]
pub struct Bubblewrap;

/// Sandbox backend of platforms without sandbox support: it refuses to run anything.
#[derive(Debug, Clone, Copy, PartialEq, Eq, Default)]
pub struct Unimplemented;

/// Mount point of the function's contents inside the sandbox.
pub open spec fn contents_mount() -> Seq<char> {
    "/.__private_yfass_contents"@
}

/// Arguments that isolate the namespaces and mount the contents directory.
pub open spec fn base_args() -> Seq<Seq<char>> {
    seq![
        "--unshare-all"@,
        "--share-net"@,
        "--new-session"@,
        "--ro-bind"@,
        "./"@,
        contents_mount(),
        "--chdir"@,
        contents_mount(),
        "--die-with-parent"@,
    ]
}

/// Arguments that mount the in-memory filesystems asked for.
pub open spec fn mount_args(ext: &SandboxConfigExt) -> Seq<Seq<char>> {
    (if ext.mount_procfs {
        seq!["--proc"@, "/proc"@]
    } else {
        seq![]
    }) + (if ext.mount_devtmpfs {
        seq!["--dev"@, "/dev"@]
    } else {
        seq![]
    }) + (if ext.mount_tmpfs {
        seq!["--tmpfs"@, "/tmp"@]
    } else {
        seq![]
    })
}

/// Arguments that bind one read-only entry.
pub open spec fn ro_entry_args(e: (String, Option<String>)) -> Seq<Seq<char>> {
    seq![
        "--ro-bind-try"@,
        e.0@,
        match e.1 {
            Some(d) => d@,
            None => e.0@,
        },
    ]
}

/// Arguments that bind all read-only entries, in order.
pub open spec fn ro_args(es: Seq<(String, Option<String>)>) -> Seq<Seq<char>>
    decreases es.len(),
{
    if es.len() == 0 {
        seq![]
    } else {
        ro_args(es.drop_last()) + ro_entry_args(es.last())
    }
}

/// Arguments that set or unset one environment variable.
pub open spec fn env_entry_args(e: (String, Option<String>)) -> Seq<Seq<char>> {
    match e.1 {
        Some(v) => seq!["--setenv"@, e.0@, v@],
        None => seq!["--unsetenv"@, e.0@],
    }
}

/// Arguments that set or unset all environment variables, in order.
pub open spec fn env_args(es: Seq<(String, Option<String>)>) -> Seq<Seq<char>>
    decreases es.len(),
{
    if es.len() == 0 {
        seq![]
    } else {
        env_args(es.drop_last()) + env_entry_args(es.last())
    }
}

/// Decimal digits of a natural number.
pub open spec fn decimal(n: nat) -> Seq<char>
    decreases n,
{
    if n < 10 {
        seq![(('0' as u8) + n as u8) as char]
    } else {
        decimal(n / 10).push((('0' as u8) + (n % 10) as u8) as char)
    }
}

/// Arguments that hand the compiled syscall filter to the sandbox.
pub open spec fn seccomp_args(fd: Option<u32>) -> Seq<Seq<char>> {
    match fd {
        Some(f) => seq!["--seccomp"@, decimal(f as nat)],
        None => seq![],
    }
}

/// Views of a list of strings.
pub open spec fn views(v: Seq<String>) -> Seq<Seq<char>> {
    v.map_values(|s: String| s@)
}

/// The full `bwrap` command line for a configuration.
pub open spec fn bwrap_command(config: &SandboxConfig, fd: Option<u32>) -> Seq<Seq<char>> {
    base_args() + mount_args(&config.platform_ext) + ro_args(config.ro_entries@) + env_args(
        config.envs@,
    ) + seccomp_args(fd) + seq!["--"@, config.command@] + views(config.args@)
}

/// The decimal digit `d` as text.
fn digit_str(d: u32) -> (r: &'static str)
    requires
        d < 10,
    ensures
        r@ == seq![(('0' as u8) + d as u8) as char],
{
    proof {
        reveal_strlit("0");
        reveal_strlit("1");
        reveal_strlit("2");
        reveal_strlit("3");
        reveal_strlit("4");
        reveal_strlit("5");
        reveal_strlit("6");
        reveal_strlit("7");
        reveal_strlit("8");
        reveal_strlit("9");
    }
    let r = match d {
        0 => "0",
        1 => "1",
        2 => "2",
        3 => "3",
        4 => "4",
        5 => "5",
        6 => "6",
        7 => "7",
        8 => "8",
        _ => "9",
    };
    assert(r@ =~= seq![(('0' as u8) + d as u8) as char]);
    r
}

/// The decimal digits of `n`, without sign or padding.
pub fn decimal_string(n: u32) -> (r: String)
    ensures
        r@ == decimal(n as nat),
    decreases n,
{
    if n < 10 {
        digit_str(n).to_owned()
    } else {
        let mut s = decimal_string(n / 10);
        s.append(digit_str(n % 10));
        assert(s@ =~= decimal(n as nat));
        s
    }
}

/// Appends owned copies of the given strings.
fn push_all(out: &mut Vec<String>, items: &[&str])
    ensures
        final(out)@.len() == old(out)@.len() + items@.len(),
        views(final(out)@) == views(old(out)@) + items@.map_values(|s: &str| s@),
{
    let ghost start = views(out@);
    let mut i: usize = 0;
    while i < items.len()
        invariant
            i <= items@.len(),
            out@.len() == old(out)@.len() + i,
            views(out@) == start + items@.take(i as int).map_values(|s: &str| s@),
            start == views(old(out)@),
        decreases items@.len() - i,
    {
        let ghost prev = out@;
        out.push(items[i].to_owned());
        proof {
            assert(views(out@) =~= views(prev).push(items@[i as int]@));
            assert(items@.take(i as int + 1) =~= items@.take(i as int).push(items@[i as int]));
            assert(views(out@) =~= start + items@.take(i as int + 1).map_values(|s: &str| s@));
        }
        i = i + 1;
    }
    proof {
        assert(items@.take(i as int) =~= items@);
    }
}

/// Builds the `bwrap` command line for a configuration, in this order: namespace isolation and
/// the read-only contents mount, the in-memory filesystems, the read-only entries, the
/// environment overrides, the syscall filter descriptor, then `--`, the command and its
/// arguments.
pub fn bwrap_args(config: &SandboxConfig, seccomp_fd: Option<u32>) -> (r: Vec<String>)
    ensures
        views(r@) == bwrap_command(config, seccomp_fd),
{
    let mut out: Vec<String> = Vec::new();
    push_all(
        &mut out,
        &[
            "--unshare-all",
            "--share-net",
            "--new-session",
            "--ro-bind",
            "./",
            "/.__private_yfass_contents",
            "--chdir",
            "/.__private_yfass_contents",
            "--die-with-parent",
        ],
    );
    assert(views(out@) =~= base_args());
    let ext = &config.platform_ext;
    if ext.mount_procfs {
        push_all(&mut out, &["--proc", "/proc"]);
    }
    assert(views(out@) =~= base_args() + (if ext.mount_procfs {
        seq!["--proc"@, "/proc"@]
    } else {
        seq![]
    }));
    if ext.mount_devtmpfs {
        push_all(&mut out, &["--dev", "/dev"]);
    }
    assert(views(out@) =~= base_args() + (if ext.mount_procfs {
        seq!["--proc"@, "/proc"@]
    } else {
        seq![]
    }) + (if ext.mount_devtmpfs {
        seq!["--dev"@, "/dev"@]
    } else {
        seq![]
    }));
    if ext.mount_tmpfs {
        push_all(&mut out, &["--tmpfs", "/tmp"]);
    }
    let ghost head = base_args() + mount_args(ext);
    assert(views(out@) =~= head);

    let mut i: usize = 0;
    while i < config.ro_entries.len()
        invariant
            i <= config.ro_entries@.len(),
            views(out@) == head + ro_args(config.ro_entries@.take(i as int)),
        decreases config.ro_entries@.len() - i,
    {
        let e = &config.ro_entries[i];
        let dst = match &e.1 {
            Some(d) => d.clone(),
            None => e.0.clone(),
        };
        let ghost prev = out@;
        out.push("--ro-bind-try".to_owned());
        out.push(e.0.clone());
        out.push(dst);
        proof {
            let es = config.ro_entries@.take(i as int + 1);
            assert(es.drop_last() =~= config.ro_entries@.take(i as int));
            assert(views(out@) =~= views(prev) + ro_entry_args(*e));
        }
        i = i + 1;
    }
    assert(config.ro_entries@.take(i as int) =~= config.ro_entries@);
    let ghost head2 = head + ro_args(config.ro_entries@);

    let mut j: usize = 0;
    while j < config.envs.len()
        invariant
            j <= config.envs@.len(),
            views(out@) == head2 + env_args(config.envs@.take(j as int)),
        decreases config.envs@.len() - j,
    {
        let e = &config.envs[j];
        let ghost prev = out@;
        match &e.1 {
            Some(v) => {
                out.push("--setenv".to_owned());
                out.push(e.0.clone());
                out.push(v.clone());
            },
            None => {
                out.push("--unsetenv".to_owned());
                out.push(e.0.clone());
            },
        }
        proof {
            let es = config.envs@.take(j as int + 1);
            assert(es.drop_last() =~= config.envs@.take(j as int));
            assert(views(out@) =~= views(prev) + env_entry_args(*e));
        }
        j = j + 1;
    }
    assert(config.envs@.take(j as int) =~= config.envs@);
    let ghost head3 = head2 + env_args(config.envs@);

    let ghost prev = out@;
    if let Some(fd) = seccomp_fd {
        out.push("--seccomp".to_owned());
        out.push(decimal_string(fd));
    }
    assert(views(out@) =~= views(prev) + seccomp_args(seccomp_fd));
    let ghost prev2 = out@;
    out.push("--".to_owned());
    out.push(config.command.clone());
    assert(views(out@) =~= views(prev2) + seq!["--"@, config.command@]);
    let ghost head4 = views(out@);

    let mut k: usize = 0;
    while k < config.args.len()
        invariant
            k <= config.args@.len(),
            views(out@) == head4 + views(config.args@.take(k as int)),
        decreases config.args@.len() - k,
    {
        let ghost prev = out@;
        out.push(config.args[k].clone());
        proof {
            assert(views(out@) =~= views(prev).push(config.args@[k as int]@));
            assert(views(config.args@.take(k as int + 1)) =~= views(config.args@.take(k as int)).push(
                config.args@[k as int]@,
            ));
        }
        k = k + 1;
    }
    assert(config.args@.take(k as int) =~= config.args@);
    assert(views(out@) =~= bwrap_command(config, seccomp_fd));
    out
}

} // verus!
