use yfass::user::{
    expiry_after_days, gen_token, Group, ManagerError, ParseGroupError, Permission, User,
    UserManager, NANOS_PER_DAY,
};

const ALL: [Permission; 6] = [
    Permission::Read,
    Permission::Write,
    Permission::Execute,
    Permission::Remove,
    Permission::Admin,
    Permission::Root,
];

fn manager() -> UserManager {
    UserManager::with_root_token("root-token".to_owned(), "./data".to_owned())
}

#[test]
fn permission_lattice_laws() {
    for p in ALL {
        assert!(p.contains(p));
        assert!(Permission::Root.contains(p));
        for q in ALL {
            if p != q && p != Permission::Root && q != Permission::Root {
                assert!(!(p.contains(q) && q.contains(p)));
            }
        }
    }
    assert!(Permission::Admin.contains(Permission::Read));
    assert!(Permission::Admin.contains(Permission::Execute));
    assert!(!Permission::Admin.contains(Permission::Root));
    assert!(Permission::Write.contains(Permission::Read));
    assert!(Permission::Remove.contains(Permission::Read));
    assert!(!Permission::Read.contains(Permission::Write));
    assert!(!Permission::Execute.contains(Permission::Read));
}

#[test]
fn group_text_round_trips() {
    let mut groups: Vec<Group> = ALL.iter().map(|p| Group::Permission(*p)).collect();
    groups.push(Group::Singular("alice".to_owned()));
    groups.push(Group::Custom("team:a".to_owned()));
    groups.push(Group::Custom(String::new()));
    for g in groups {
        let text = g.to_string();
        let back = Group::parse(&text).unwrap();
        assert!(back == g, "{text}");
    }
    assert_eq!(Group::Permission(Permission::Execute).to_string(), "permission:execute");
    assert_eq!(Group::Singular("bob".to_owned()).to_string(), "singular:bob");
    let g: Group = "custom:ops".parse().unwrap();
    assert!(g == Group::Custom("ops".to_owned()));
}

#[test]
fn group_parse_errors() {
    assert!(matches!(Group::parse("nokey"), Err(ParseGroupError::MissingKey)));
    assert!(matches!(Group::parse("other:x"), Err(ParseGroupError::MissingKey)));
    match Group::parse("permission:fly") {
        Err(ParseGroupError::InvalidPermission(v)) => assert_eq!(v, "fly"),
        other => panic!("unexpected {other:?}"),
    }
}

#[test]
fn user_membership() {
    let u = User::new(
        "alice".to_owned(),
        vec![
            Group::Permission(Permission::Read),
            Group::Custom("ops".to_owned()),
            Group::Permission(Permission::Read),
        ],
    );
    assert_eq!(u.groups.len(), 2);
    assert!(u.is_in(&Group::Permission(Permission::Read)));
    assert!(!u.is_in(&Group::Permission(Permission::Write)));
    assert!(u.is_in(&Group::Custom("ops".to_owned())));
    assert!(u.is_in(&Group::Singular("alice".to_owned())));
    assert!(!u.is_in(&Group::Singular("bob".to_owned())));
}

#[test]
fn user_tokens_expire_and_prune() {
    let mut u = User::new("alice".to_owned(), vec![]);
    u.add_token("t1".to_owned(), 100, 0);
    assert!(u.is_token_valid("t1", 99));
    assert!(!u.is_token_valid("t1", 100));
    u.add_token("t2".to_owned(), 300, 150);
    assert_eq!(u.tokens().len(), 1);
    assert_eq!(u.tokens()[0].0, "t2");
    u.clear_tokens();
    assert!(u.tokens().is_empty());
}

#[test]
fn add_and_remove_users() {
    let mut m = manager();
    assert!(m.is_empty());
    m.add(User::new("alice".to_owned(), vec![])).unwrap();
    assert!(m.is_dirty());
    assert!(matches!(m.add(User::new("alice".to_owned(), vec![])), Err(ManagerError::Duplicated)));
    assert!(matches!(m.add(User::new("root".to_owned(), vec![])), Err(ManagerError::Duplicated)));
    m.add_token_at("alice", "tok".to_owned(), 1000, 0).unwrap();
    assert_eq!(m.user_name("tok").as_deref(), Some("alice"));
    m.remove("alice").unwrap();
    assert!(matches!(m.remove("alice"), Err(ManagerError::NotFound)));
    assert_eq!(m.user_name("tok"), None);
    assert!(!m.auth_at("tok", &vec![], 1));
}

#[test]
fn registered_token_names_owner_and_authorizes() {
    let mut m = manager();
    m.add(User::new("alice".to_owned(), vec![Group::Permission(Permission::Read)])).unwrap();
    let t = m.add_token_at("alice", "tok-a".to_owned(), 1000, 0).unwrap();
    assert_eq!(t, "tok-a");
    assert_eq!(m.user_name("tok-a").as_deref(), Some("alice"));
    assert!(m.auth_at("tok-a", &vec![], 10));
    assert!(m.auth_at("tok-a", &vec![Group::Permission(Permission::Read)], 10));
    assert!(!m.auth_at("tok-a", &vec![Group::Permission(Permission::Write)], 10));
    assert!(m.auth_at("tok-a", &vec![Group::Singular("alice".to_owned())], 10));
    assert!(!m.auth_at("unknown", &vec![], 10));
    assert!(matches!(m.add_token_at("bob", "x".to_owned(), 1, 0), Err(ManagerError::NotFound)));
}

#[test]
fn root_token_is_authorized_for_everything() {
    let m = manager();
    let all: Vec<Group> = ALL.iter().map(|p| Group::Permission(*p)).collect();
    assert!(m.auth_at("root-token", &all, 0));
    assert!(m.auth_at("root-token", &vec![Group::Custom("x".to_owned())], i128::MAX));
    assert!(m.auth("root-token", &all));
    assert_eq!(m.user_name("root-token").as_deref(), Some("root"));
    assert!(matches!(m.peek_from_token("root-token"), Ok(None)));
    assert!(matches!(m.peek("root"), Ok(None)));
    assert!(matches!(m.peek("nobody"), Err(ManagerError::NotFound)));
}

#[test]
fn token_expiry_scenario() {
    let mut m = manager();
    m.add(User::new("alice".to_owned(), vec![Group::Permission(Permission::Read)])).unwrap();
    let now: i128 = 1_000;
    let t = m.add_token_at("alice", "t".to_owned(), expiry_after_days(now, 0), now).unwrap();
    assert!(!m.auth_at(&t, &vec![Group::Permission(Permission::Read)], now));
    let t2 = m.add_token_at("alice", "t2".to_owned(), now + 1_000_000_000, now).unwrap();
    assert!(m.auth_at(&t2, &vec![Group::Permission(Permission::Read)], now + 1));
    assert!(!m.auth_at(&t2, &vec![Group::Permission(Permission::Read)], now + 2_000_000_000));
}

#[test]
fn expiry_arithmetic() {
    assert_eq!(expiry_after_days(5, 0), 5);
    assert_eq!(expiry_after_days(0, 10), 10 * NANOS_PER_DAY);
    assert_eq!(expiry_after_days(i128::MAX - 1, 1), i128::MAX);
}

#[test]
fn generated_tokens_are_url_safe() {
    let a = gen_token();
    let b = gen_token();
    assert_eq!(a.len(), 43);
    assert!(a.chars().all(|c| c.is_ascii_alphanumeric() || c == '-' || c == '_'));
    assert_ne!(a, b);
    let m = UserManager::new("./d".to_owned());
    assert_eq!(m.root_token().len(), 43);
}

#[test]
fn random_token_for_user() {
    let mut m = manager();
    m.add(User::new("alice".to_owned(), vec![])).unwrap();
    let t = m.add_token("alice", 1).unwrap();
    assert_eq!(t.len(), 43);
    assert_eq!(m.user_name(&t).as_deref(), Some("alice"));
    assert!(m.auth(&t, &vec![]));
    assert!(matches!(m.add_token("bob", 1), Err(ManagerError::NotFound)));
}

#[test]
fn set_groups_and_peek() {
    let mut m = manager();
    m.add(User::new("alice".to_owned(), vec![])).unwrap();
    m.set_groups("alice", vec![Group::Permission(Permission::Admin)]).unwrap();
    let u = m.peek("alice").unwrap().unwrap();
    assert!(u.is_in(&Group::Permission(Permission::Admin)));
    assert!(matches!(m.set_groups("root", vec![]), Ok(None)));
    assert!(matches!(m.set_groups("bob", vec![]), Err(ManagerError::NotFound)));
}

#[test]
fn loading_users_indexes_live_tokens() {
    let mut m = manager();
    let alice = User::from_parts(
        "alice".to_owned(),
        vec![],
        vec![("old".to_owned(), 5), ("new".to_owned(), 500)],
    );
    m.read_loaded(vec![alice], 100).unwrap();
    assert_eq!(m.user_name("new").as_deref(), Some("alice"));
    assert_eq!(m.user_name("old"), None);
    assert_eq!(m.users()[0].tokens().len(), 2);
    assert!(matches!(m.read_loaded(vec![], 0), Err(ManagerError::Initialized)));
    let mut fresh = manager();
    let dup = vec![User::new("a".to_owned(), vec![]), User::new("a".to_owned(), vec![])];
    assert!(matches!(fresh.read_loaded(dup, 0), Err(ManagerError::Duplicated)));
}

#[test]
fn loaded_tokens_index_their_owner() {
    let mut m = manager();
    let a = User::from_parts("a".to_owned(), vec![], vec![("ta".to_owned(), 500), ("old".to_owned(), 1)]);
    let b = User::from_parts("b".to_owned(), vec![], vec![("tb".to_owned(), 500)]);
    m.read_loaded(vec![a, b], 100).unwrap();
    assert_eq!(m.user_name("ta").as_deref(), Some("a"));
    assert_eq!(m.user_name("tb").as_deref(), Some("b"));
    assert_eq!(m.user_name("old"), None);
}
