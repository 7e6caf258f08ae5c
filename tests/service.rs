use yfass::deploy::{Deployments, Handle};
use yfass::func::{Config, FunctionManager, Key, OwnedKey};
use yfass::service::{
    add_user, archive_kind, authenticate, bearer_token, default_token_duration_days, get_user,
    modify_user, override_config, permission_groups, record_start, register_upload, remove_function,
    remove_user, request_token, set_alias, stop_function, to_permission, trim_ascii,
    validate_key_param, validate_username_param, ApiError, ArchiveKind, ClientUser,
    RequestTokenRequest, ADMIN, EXECUTE, READ, REMOVE, ROOT, WRITE,
};
use yfass::user::{self, Group, Permission, User, UserManager};

struct Proc(u32);

impl Handle for Proc {
    fn is_running(&self) -> bool {
        true
    }
}

const NOW: i128 = 1_000;

fn key<'a>(name: &'a str, version: &'a str) -> Key<'a> {
    Key { name, version }
}

fn setup() -> UserManager {
    let mut m = UserManager::with_root_token("root-token".to_owned(), "d".to_owned());
    m.add(User::new(
        "alice".to_owned(),
        vec![Group::Permission(Permission::Write), Group::Permission(Permission::Read)],
    ))
    .unwrap();
    m.add(User::new("bob".to_owned(), vec![Group::Permission(Permission::Admin)])).unwrap();
    m.add(User::new("carol".to_owned(), vec![])).unwrap();
    m.add_token_at("alice", "ta".to_owned(), NOW * 10, NOW).unwrap();
    m.add_token_at("bob", "tb".to_owned(), NOW * 10, NOW).unwrap();
    m.add_token_at("carol", "tc".to_owned(), NOW * 10, NOW).unwrap();
    m
}

#[test]
fn key_and_username_validation() {
    assert!(validate_key_param("echo-1").is_ok());
    assert!(matches!(validate_key_param(""), Err(ApiError::InvalidKeyFormat)));
    assert!(matches!(validate_key_param("Echo"), Err(ApiError::InvalidKeyFormat)));
    assert!(matches!(validate_key_param("a.b"), Err(ApiError::InvalidKeyFormat)));
    assert!(validate_username_param("Alice-2").is_ok());
    assert!(matches!(validate_username_param(""), Err(ApiError::InvalidUsernameFormat)));
    assert!(matches!(validate_username_param("a_b"), Err(ApiError::InvalidUsernameFormat)));
    assert_eq!(default_token_duration_days(), 10);
}

#[test]
fn status_codes() {
    assert_eq!(ApiError::Unauthorized.status_code(), 401);
    assert_eq!(ApiError::InvalidAuthMethod.status_code(), 401);
    assert_eq!(ApiError::PermissionDenied.status_code(), 403);
    assert_eq!(ApiError::FunctionNotRunning.status_code(), 403);
    assert_eq!(ApiError::ModifyRootUser.status_code(), 403);
    assert_eq!(ApiError::MissingHost.status_code(), 400);
    assert_eq!(ApiError::UnsupportedArchiveType.status_code(), 400);
    assert_eq!(ApiError::NotFound.status_code(), 404);
    assert_eq!(ApiError::InstanceAlreadyRunning.status_code(), 409);
    assert_eq!(ApiError::Io("x".to_owned()).status_code(), 500);
    assert_eq!(ApiError::FunctionManager(yfass::func::ManagerError::Duplicated).status_code(), 409);
    assert_eq!(ApiError::FunctionManager(yfass::func::ManagerError::NotAliased).status_code(), 403);
    assert_eq!(ApiError::FunctionManager(yfass::func::ManagerError::NotFound).status_code(), 404);
    assert_eq!(ApiError::UserManager(user::ManagerError::Initialized).status_code(), 500);
    assert_eq!(ApiError::UserManager(user::ManagerError::Duplicated).status_code(), 409);
    assert_eq!(ApiError::UserManager(user::ManagerError::NotFound).status_code(), 404);
    assert_eq!(ApiError::InvalidHeaderEncoding("x".to_owned()).status_code(), 400);
    assert_eq!(ApiError::MissingContentType.status_code(), 400);
    assert_eq!(ApiError::InvalidUriParts("x".to_owned()).status_code(), 400);
    assert_eq!(ApiError::InvalidKeyFormat.status_code(), 403);
    assert_eq!(ApiError::InvalidUsernameFormat.status_code(), 403);
    assert_eq!(ApiError::InvalidSocketAddrAsUri("x".to_owned()).status_code(), 500);
    assert_eq!(ApiError::Client("x".to_owned()).status_code(), 500);
    assert_eq!(ApiError::WebsocketConnection("x".to_owned()).status_code(), 500);
    assert_eq!(ApiError::FunctionManager(yfass::func::ManagerError::Io("x".to_owned())).status_code(), 500);
    assert_eq!(ApiError::FunctionManager(yfass::func::ManagerError::ParseJson("x".to_owned())).status_code(), 500);
    assert_eq!(ApiError::FunctionManager(yfass::func::ManagerError::Initialized).status_code(), 500);
}

#[test]
fn permission_masks() {
    assert_eq!(to_permission(READ), Some(Permission::Read));
    assert_eq!(to_permission(ROOT), Some(Permission::Root));
    assert_eq!(to_permission(3), None);
    let gs = permission_groups(WRITE | REMOVE);
    assert_eq!(gs.len(), 2);
    assert!(gs[0] == Group::Permission(Permission::Write));
    assert!(gs[1] == Group::Permission(Permission::Remove));
    assert!(permission_groups(0).is_empty());
    assert_eq!(permission_groups(READ | WRITE | EXECUTE | REMOVE | ADMIN | ROOT).len(), 6);
}

#[test]
fn bearer_parsing() {
    assert!(matches!(bearer_token(None), Err(ApiError::Unauthorized)));
    assert!(matches!(bearer_token(Some("Basic abc")), Err(ApiError::InvalidAuthMethod)));
    assert!(matches!(bearer_token(Some("Bearer")), Err(ApiError::InvalidAuthMethod)));
    assert_eq!(bearer_token(Some("Bearer  tok \t")).unwrap(), "tok");
    assert_eq!(trim_ascii("  a b  "), "a b");
    assert_eq!(trim_ascii("   "), "");
}

#[test]
fn authenticate_checks_mask() {
    let m = setup();
    assert_eq!(authenticate(&m, Some("Bearer ta"), WRITE, NOW).unwrap(), "ta");
    assert!(matches!(authenticate(&m, Some("Bearer ta"), ADMIN, NOW), Err(ApiError::PermissionDenied)));
    assert!(matches!(authenticate(&m, None, READ, NOW), Err(ApiError::Unauthorized)));
    assert!(matches!(authenticate(&m, Some("Bearer ta"), READ, NOW * 20), Err(ApiError::PermissionDenied)));
    assert_eq!(authenticate(&m, Some("Bearer root-token"), ROOT, NOW).unwrap(), "root-token");
}

#[test]
fn archive_types() {
    assert_eq!(archive_kind("application/x-tar").unwrap(), ArchiveKind::Tar);
    assert_eq!(archive_kind("application/gzip").unwrap(), ArchiveKind::Gzip);
    assert_eq!(archive_kind("application/x-gzip").unwrap(), ArchiveKind::Gzip);
    assert!(matches!(archive_kind("text/plain"), Err(ApiError::UnsupportedArchiveType)));
}

#[test]
fn upload_deploy_and_route() {
    let users = setup();
    let mut funcs = FunctionManager::new("r".to_owned());
    let k = OwnedKey { name: "echo".to_owned(), version: "v1".to_owned() };
    let kind = register_upload(&mut funcs, &users, "ta", &k, "application/x-tar").unwrap();
    assert_eq!(kind, ArchiveKind::Tar);
    let f = funcs.get(k.as_ref()).unwrap();
    assert!(f.config.group == Some(Group::Singular("alice".to_owned())));
    let mut c = Config::default();
    c.addr = "127.0.0.1:19999".to_owned();
    c.sandbox.command = "./server".to_owned();
    c.group = Some(Group::Singular("alice".to_owned()));
    override_config(&mut funcs, &users, "ta", k.as_ref(), c, NOW).unwrap();
    let addr = funcs.get(k.as_ref()).unwrap().config.addr.clone();
    let mut d: Deployments<Proc> = Deployments::new();
    assert!(record_start(&mut d, k.as_ref(), addr, Proc(1)).is_ok());
    let router = yfass::proxy::HostRouter::new("example.test", 8080);
    let prefix = router.route_prefix("v1.echo.example.test:8080").unwrap();
    assert_eq!(d.route(&prefix).as_deref(), Some("127.0.0.1:19999"));
    // others cannot act on alice's function
    assert!(matches!(
        override_config(&mut funcs, &users, "tb", k.as_ref(), Config::default(), NOW),
        Err(ApiError::PermissionDenied)
    ));
    let h = stop_function(&funcs, &users, &mut d, "ta", k.as_ref(), NOW).unwrap();
    assert_eq!(h.0, 1);
    assert!(matches!(
        stop_function(&funcs, &users, &mut d, "ta", k.as_ref(), NOW),
        Err(ApiError::NotFound)
    ));
}

#[test]
fn upload_errors() {
    let users = setup();
    let mut funcs = FunctionManager::new("r".to_owned());
    let bad = OwnedKey { name: "Echo".to_owned(), version: "v1".to_owned() };
    assert!(matches!(
        register_upload(&mut funcs, &users, "ta", &bad, "application/x-tar"),
        Err(ApiError::InvalidKeyFormat)
    ));
    let k = OwnedKey { name: "echo".to_owned(), version: "v1".to_owned() };
    assert!(matches!(
        register_upload(&mut funcs, &users, "nobody", &k, "application/x-tar"),
        Err(ApiError::Unauthorized)
    ));
    assert!(matches!(
        register_upload(&mut funcs, &users, "ta", &k, "text/plain"),
        Err(ApiError::UnsupportedArchiveType)
    ));
    register_upload(&mut funcs, &users, "ta", &k, "application/gzip").unwrap();
    assert!(matches!(
        register_upload(&mut funcs, &users, "ta", &k, "application/gzip"),
        Err(ApiError::FunctionManager(yfass::func::ManagerError::Duplicated))
    ));
}

#[test]
fn concurrent_start_admits_one() {
    let mut d: Deployments<Proc> = Deployments::new();
    assert!(record_start(&mut d, key("fn", "v1"), "a:1".to_owned(), Proc(1)).is_ok());
    match record_start(&mut d, key("fn", "v1"), "a:1".to_owned(), Proc(2)) {
        Err((e, h)) => {
            assert!(matches!(e, ApiError::InstanceAlreadyRunning));
            assert_eq!(e.status_code(), 409);
            assert_eq!(h.0, 2);
        }
        Ok(()) => panic!("second instance accepted"),
    }
}

#[test]
fn alias_endpoint_scenario() {
    let users = setup();
    let mut funcs = FunctionManager::new("r".to_owned());
    for v in ["v1", "v2"] {
        let k = OwnedKey { name: "fn".to_owned(), version: v.to_owned() };
        register_upload(&mut funcs, &users, "ta", &k, "application/x-tar").unwrap();
    }
    set_alias(&mut funcs, &users, "ta", key("fn", "v1"), Some("latest".to_owned()), NOW).unwrap();
    set_alias(&mut funcs, &users, "ta", key("fn", "v2"), Some("latest".to_owned()), NOW).unwrap();
    assert_eq!(funcs.get(key("fn", "latest")).unwrap().meta.version, "v2");
    assert_eq!(funcs.get(key("fn", "v1")).unwrap().meta.version_alias, None);
    assert!(matches!(
        set_alias(&mut funcs, &users, "ta", key("fn", "v1"), Some("Bad".to_owned()), NOW),
        Err(ApiError::InvalidKeyFormat)
    ));
    assert!(matches!(
        set_alias(&mut funcs, &users, "ta", key("fn", "v9"), None, NOW),
        Err(ApiError::NotFound)
    ));
    let removed = remove_function(&mut funcs, &users, "root-token", key("fn", "latest"), NOW).unwrap();
    assert_eq!(removed.version, "v2");
}

#[test]
fn root_user_view() {
    let users = setup();
    let root = get_user(&users, "root-token", Some("root")).unwrap();
    assert_eq!(root.name, "root");
    assert_eq!(root.groups.len(), 1);
    assert!(root.groups[0] == Group::Permission(Permission::Root));
    let root = get_user(&users, "root-token", None).unwrap();
    assert_eq!(root.name, "root");
    let alice = get_user(&users, "root-token", Some("alice")).unwrap();
    assert_eq!(alice.name, "alice");
    // an admin sees root and others; a plain user only itself
    assert_eq!(get_user(&users, "tb", Some("root")).unwrap().name, "root");
    assert_eq!(get_user(&users, "tb", Some("alice")).unwrap().name, "alice");
    assert_eq!(get_user(&users, "tc", None).unwrap().name, "carol");
    assert!(matches!(get_user(&users, "tc", Some("root")), Err(ApiError::PermissionDenied)));
    assert!(matches!(
        get_user(&users, "nobody", None),
        Err(ApiError::UserManager(user::ManagerError::NotFound))
    ));
    assert!(matches!(
        get_user(&users, "tb", Some("ghost")),
        Err(ApiError::UserManager(user::ManagerError::NotFound))
    ));
}

#[test]
fn user_admin_endpoints() {
    let mut users = setup();
    let req = ClientUser { name: "Dave".to_owned(), groups: vec![Group::Permission(Permission::Read)] };
    // no implication: an administrator grants only permissions it holds literally
    assert!(matches!(add_user(&mut users, "tb", req, NOW), Err(ApiError::PermissionDenied)));
    let req = ClientUser { name: "Dave".to_owned(), groups: vec![Group::Permission(Permission::Read)] };
    add_user(&mut users, "root-token", req, NOW).unwrap();
    assert!(users.peek("dave").unwrap().is_some());
    let req = ClientUser { name: "eve".to_owned(), groups: vec![Group::Permission(Permission::Root)] };
    assert!(matches!(add_user(&mut users, "tb", req, NOW), Err(ApiError::PermissionDenied)));
    let req = ClientUser { name: "e_v".to_owned(), groups: vec![] };
    assert!(matches!(add_user(&mut users, "tb", req, NOW), Err(ApiError::InvalidUsernameFormat)));
    let req = ClientUser { name: "ROOT".to_owned(), groups: vec![] };
    assert!(matches!(
        add_user(&mut users, "tb", req, NOW),
        Err(ApiError::UserManager(user::ManagerError::Duplicated))
    ));
    let req = ClientUser { name: "root".to_owned(), groups: vec![] };
    assert!(matches!(modify_user(&mut users, "tb", req, NOW), Err(ApiError::ModifyRootUser)));
    let req = ClientUser { name: "ghost".to_owned(), groups: vec![] };
    assert!(matches!(
        modify_user(&mut users, "tb", req, NOW),
        Err(ApiError::UserManager(user::ManagerError::NotFound))
    ));
    let req = ClientUser { name: "carol".to_owned(), groups: vec![Group::Custom("x".to_owned())] };
    modify_user(&mut users, "tb", req, NOW).unwrap();
    assert!(users.peek("carol").unwrap().unwrap().is_in(&Group::Custom("x".to_owned())));
    let t = request_token(&mut users, &RequestTokenRequest { duration: 1, user: "carol".to_owned() }).unwrap();
    assert_eq!(t.len(), 43);
    remove_user(&mut users, "carol").unwrap();
    assert!(matches!(
        remove_user(&mut users, "carol"),
        Err(ApiError::UserManager(user::ManagerError::NotFound))
    ));
}

#[test]
fn proxy_target_decisions() {
    let router = yfass::proxy::HostRouter::new("example.test", 8080);
    let mut d: Deployments<Proc> = Deployments::new();
    assert!(record_start(&mut d, key("echo", "v1"), "127.0.0.1:1".to_owned(), Proc(1)).is_ok());
    assert!(matches!(yfass::service::proxy_target(&router, &d, None), Err(ApiError::MissingHost)));
    assert!(matches!(yfass::service::proxy_target(&router, &d, Some("foo.other.test")), Ok(None)));
    assert_eq!(
        yfass::service::proxy_target(&router, &d, Some("v1.echo.example.test:8080")).unwrap().as_deref(),
        Some("127.0.0.1:1")
    );
    assert!(matches!(
        yfass::service::proxy_target(&router, &d, Some("v2.echo.example.test")),
        Err(ApiError::FunctionNotRunning)
    ));
}

#[test]
fn upload_records_uploader_group() {
    let users = setup();
    let mut funcs = FunctionManager::new("r".to_owned());
    let k = OwnedKey { name: "echo".to_owned(), version: "v1".to_owned() };
    register_upload(&mut funcs, &users, "root-token", &k, "application/x-tar").unwrap();
    let f = funcs.get(k.as_ref()).unwrap();
    assert!(f.config.group == Some(Group::Singular("root".to_owned())));
    assert_eq!(f.meta.version_alias, None);
    assert!(!f.config.sandbox.inherit_stdout);
}

#[test]
fn ascii_lowercase_text() {
    assert_eq!(yfass::service::to_ascii_lowercase("Dave-XYZ_9é"), "dave-xyz_9é");
    assert_eq!(yfass::service::to_ascii_lowercase(""), "");
}
