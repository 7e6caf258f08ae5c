use yfass::func::{Config, FunctionManager, Key, ManagerError, OwnedKey, ParseKeyError};
use yfass::user::Group;

fn key<'a>(name: &'a str, version: &'a str) -> Key<'a> {
    Key { name, version }
}

fn alias_of(m: &FunctionManager, name: &str, version: &str) -> Option<String> {
    m.functions()
        .iter()
        .find(|f| f.meta.name == name && f.meta.version == version)
        .and_then(|f| f.meta.version_alias.clone())
}

#[test]
fn parse_key_splits_at_first_at() {
    let k = OwnedKey::parse("echo@v1").unwrap();
    assert_eq!(k.name, "echo");
    assert_eq!(k.version, "v1");
    let k = OwnedKey::parse("a@b@c").unwrap();
    assert_eq!(k.name, "a");
    assert_eq!(k.version, "b@c");
    assert!(matches!(OwnedKey::parse("noversion"), Err(ParseKeyError::MissingSeparator)));
    let k: OwnedKey = "fn@latest".parse().unwrap();
    assert_eq!(k.version, "latest");
    let k = OwnedKey::parse("@").unwrap();
    assert_eq!(k.name, "");
    assert_eq!(k.version, "");
}

#[test]
fn key_text_round_trips() {
    for (n, v) in [("echo", "v1"), ("fn", "latest"), ("a-b", "0-1"), ("x", "")] {
        let k = OwnedKey { name: n.to_owned(), version: v.to_owned() };
        let text = k.to_string();
        assert_eq!(text, format!("{n}@{v}"));
        let back = OwnedKey::parse(&text).unwrap();
        assert_eq!(back.name, k.name);
        assert_eq!(back.version, k.version);
    }
}

#[test]
fn key_conversions_and_host_prefix() {
    let owned = OwnedKey { name: "echo".to_owned(), version: "v1".to_owned() };
    let k = owned.as_ref();
    assert_eq!(k.name, "echo");
    assert_eq!(k.version, "v1");
    assert_eq!(k.to_host_prefix(), "v1.echo");
    assert_eq!(k.to_string(), "echo@v1");
    let back = k.into_owned();
    assert_eq!(back.name, "echo");
    assert_eq!(back.version, "v1");
}

#[test]
fn add_func_sets_defaults_and_refuses_duplicates() {
    let mut m = FunctionManager::new("./root".to_owned());
    assert!(m.is_empty());
    assert!(!m.is_dirty());
    m.add_func(key("echo", "v1"), Some(Group::Singular("alice".to_owned()))).unwrap();
    assert!(m.is_dirty());
    let f = m.get(key("echo", "v1")).unwrap();
    assert_eq!(f.meta.name, "echo");
    assert_eq!(f.meta.version, "v1");
    assert_eq!(f.meta.version_alias, None);
    assert_eq!(f.config.addr, "127.0.0.1:0");
    assert!(f.config.group == Some(Group::Singular("alice".to_owned())));
    assert!(f.config.sandbox.platform_ext.mount_procfs);
    assert!(!f.config.sandbox.platform_ext.mount_tmpfs);
    assert!(matches!(m.add_func(key("echo", "v1"), None), Err(ManagerError::Duplicated)));
    m.modify_alias(key("echo", "v1"), Some("latest".to_owned())).unwrap();
    // the alias slot is taken too
    assert!(matches!(m.add_func(key("echo", "latest"), None), Err(ManagerError::Duplicated)));
    assert_eq!(m.functions().len(), 1);
}

#[test]
fn missing_functions_are_not_found() {
    let mut m = FunctionManager::new("r".to_owned());
    assert!(m.get(key("x", "1")).is_none());
    assert!(matches!(m.modify_config(key("x", "1"), Config::default()), Err(ManagerError::NotFound)));
    assert!(matches!(m.modify_alias(key("x", "1"), None), Err(ManagerError::NotFound)));
    assert!(matches!(m.remove_func(key("x", "1")), Err(ManagerError::NotFound)));
    assert!(!m.is_dirty());
}

#[test]
fn alias_overwrite_moves_alias() {
    let mut m = FunctionManager::new("r".to_owned());
    m.add_func(key("fn", "v1"), None).unwrap();
    m.add_func(key("fn", "v2"), None).unwrap();
    m.modify_alias(key("fn", "v1"), Some("latest".to_owned())).unwrap();
    assert_eq!(m.get(key("fn", "latest")).unwrap().meta.version, "v1");
    m.modify_alias(key("fn", "v2"), Some("latest".to_owned())).unwrap();
    assert_eq!(m.get(key("fn", "latest")).unwrap().meta.version, "v2");
    assert_eq!(alias_of(&m, "fn", "v1"), None);
    assert_eq!(alias_of(&m, "fn", "v2"), Some("latest".to_owned()));
}

#[test]
fn every_alias_resolves_to_its_function() {
    let mut m = FunctionManager::new("r".to_owned());
    m.add_func(key("a", "1"), None).unwrap();
    m.add_func(key("a", "2"), None).unwrap();
    m.add_func(key("b", "1"), None).unwrap();
    m.modify_alias(key("a", "1"), Some("stable".to_owned())).unwrap();
    m.modify_alias(key("b", "1"), Some("stable".to_owned())).unwrap();
    m.modify_alias(key("a", "2"), Some("next".to_owned())).unwrap();
    for f in m.functions() {
        if let Some(a) = &f.meta.version_alias {
            let g = m.get(key(&f.meta.name, a)).unwrap();
            assert_eq!(g.meta.version, f.meta.version);
        }
    }
    // an alias of another name is untouched
    assert_eq!(alias_of(&m, "a", "1"), Some("stable".to_owned()));
    assert_eq!(alias_of(&m, "b", "1"), Some("stable".to_owned()));
}

#[test]
fn modify_alias_twice_is_a_no_op() {
    let mut m = FunctionManager::new("r".to_owned());
    m.add_func(key("fn", "v1"), None).unwrap();
    m.add_func(key("fn", "v2"), None).unwrap();
    m.modify_alias(key("fn", "v1"), Some("latest".to_owned())).unwrap();
    let before: Vec<Option<String>> = m.functions().iter().map(|f| f.meta.version_alias.clone()).collect();
    m.modify_alias(key("fn", "v1"), Some("latest".to_owned())).unwrap();
    let after: Vec<Option<String>> = m.functions().iter().map(|f| f.meta.version_alias.clone()).collect();
    assert_eq!(before, after);
    // removing the alias frees the slot
    m.modify_alias(key("fn", "latest"), None).unwrap();
    assert!(m.get(key("fn", "latest")).is_none());
}

#[test]
fn modify_config_through_alias() {
    let mut m = FunctionManager::new("r".to_owned());
    m.add_func(key("fn", "v1"), None).unwrap();
    m.modify_alias(key("fn", "v1"), Some("latest".to_owned())).unwrap();
    let mut c = Config::default();
    c.addr = "127.0.0.1:19999".to_owned();
    c.sandbox.command = "./server".to_owned();
    m.modify_config(key("fn", "latest"), c).unwrap();
    let f = m.get(key("fn", "v1")).unwrap();
    assert_eq!(f.config.addr, "127.0.0.1:19999");
    assert_eq!(f.config.sandbox.command, "./server");
}

#[test]
fn remove_through_alias_removes_both_entries() {
    let mut m = FunctionManager::new("r".to_owned());
    m.add_func(key("fn", "v1"), None).unwrap();
    m.add_func(key("fn", "v2"), None).unwrap();
    m.modify_alias(key("fn", "v1"), Some("latest".to_owned())).unwrap();
    m.mark_written();
    let k = m.remove_func(key("fn", "latest")).unwrap();
    assert_eq!(k.name, "fn");
    assert_eq!(k.version, "v1");
    assert!(m.is_dirty());
    assert!(m.get(key("fn", "v1")).is_none());
    assert!(m.get(key("fn", "latest")).is_none());
    assert!(m.get(key("fn", "v2")).is_some());
}

#[test]
fn contents_path_layout() {
    let m = FunctionManager::new("/srv".to_owned());
    assert_eq!(m.contents_path(key("echo", "v1")), "/srv/echo@v1/contents");
}

fn loaded(name: &str, version: &str, alias: Option<&str>) -> yfass::func::Function {
    yfass::func::Function {
        meta: yfass::func::Metadata {
            name: name.to_owned(),
            version: version.to_owned(),
            version_alias: alias.map(str::to_owned),
        },
        config: Config::default(),
    }
}

#[test]
fn loading_skips_duplicates_and_taken_aliases() {
    let mut m = FunctionManager::new("r".to_owned());
    m.read_loaded(vec![
        loaded("fn", "v1", Some("latest")),
        loaded("fn", "v1", None),
        loaded("fn", "v2", Some("latest")),
    ])
    .unwrap();
    assert_eq!(m.functions().len(), 2);
    assert_eq!(alias_of(&m, "fn", "v1"), Some("latest".to_owned()));
    assert_eq!(alias_of(&m, "fn", "v2"), None);
    assert!(!m.is_dirty());
    assert!(matches!(m.read_loaded(vec![]), Err(ManagerError::Initialized)));
}

#[test]
fn write_pass_clears_dirty_and_keeps_contents() {
    let mut m = FunctionManager::new("r".to_owned());
    m.add_func(key("fn", "v1"), None).unwrap();
    let names: Vec<String> = m.functions().iter().map(|f| f.meta.name.clone()).collect();
    m.mark_written();
    assert!(!m.is_dirty());
    m.mark_written();
    assert!(!m.is_dirty());
    let again: Vec<String> = m.functions().iter().map(|f| f.meta.name.clone()).collect();
    assert_eq!(names, again);
}

#[test]
fn alias_onto_canonical_slot_overwrites_it() {
    let mut m = FunctionManager::new("r".to_owned());
    m.add_func(key("n", "a"), None).unwrap();
    m.modify_alias(key("n", "a"), Some("b".to_owned())).unwrap();
    m.add_func(key("n", "v2"), None).unwrap();
    m.modify_alias(key("n", "v2"), Some("a".to_owned())).unwrap();
    // the function that had `n@a` as its canonical key is gone, alias and all
    assert_eq!(m.get(key("n", "a")).unwrap().meta.version, "v2");
    assert!(m.get(key("n", "b")).is_none());
    assert_eq!(m.functions().len(), 1);
    // clearing the alias leaves nothing at the slot
    m.modify_alias(key("n", "v2"), None).unwrap();
    assert!(m.get(key("n", "a")).is_none());
    assert!(m.get(key("n", "v2")).is_some());
}

#[test]
fn loaded_alias_resolves_to_its_function() {
    let mut m = FunctionManager::new("r".to_owned());
    m.read_loaded(vec![loaded("fn", "v1", None), loaded("fn", "v2", Some("latest"))]).unwrap();
    assert_eq!(m.get(key("fn", "latest")).unwrap().meta.version, "v2");
    assert_eq!(m.get(key("fn", "v1")).unwrap().meta.version, "v1");
}
