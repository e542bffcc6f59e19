use obfsct::config::canonicalize;
use obfsct::config::store_path;
use obfsct::config::store_precheck;
use obfsct::config::Args;
use obfsct::table::MappingTable;
use obfsct::table::StoreError;

#[test]
fn empty_content_is_an_empty_table() {
    // An absent store file reads as empty content: the initial table is
    // empty.
    let t = MappingTable::from_toml("").unwrap();
    assert_eq!(t.len(), 0);
}

#[test]
fn malformed_content_is_a_parse_error() {
    assert_eq!(
        MappingTable::from_toml("this is = = not a table").unwrap_err(),
        StoreError::Parse
    );
    // a table whose value is not a string is refused too
    assert_eq!(
        MappingTable::from_toml("a = 3").unwrap_err(),
        StoreError::Parse
    );
}

#[test]
fn table_round_trips_through_the_store_format() {
    let mut t = MappingTable::new();
    t.insert("a/b".to_string(), "0000-1111".to_string());
    t.insert("a".to_string(), "2222-3333".to_string());
    t.insert("weird key with spaces".to_string(), "4444".to_string());
    let text = t.to_toml().unwrap();
    let back = MappingTable::from_toml(&text).unwrap();
    assert_eq!(back.len(), 3);
    assert_eq!(back.get(&"a/b".to_string()).unwrap(), "0000-1111");
    assert_eq!(back.get(&"a".to_string()).unwrap(), "2222-3333");
    assert_eq!(
        back.get(&"weird key with spaces".to_string()).unwrap(),
        "4444"
    );
}

#[test]
fn serialized_text_holds_every_row() {
    let mut t = MappingTable::new();
    t.insert("x.txt".to_string(), "abcd".to_string());
    let text = t.to_toml().unwrap();
    assert!(text.contains("x.txt"));
    assert!(text.contains("abcd"));
}

#[test]
fn lookup_and_membership() {
    let mut t = MappingTable::new();
    assert!(!t.contains_key(&"a".to_string()));
    assert!(t.get(&"a".to_string()).is_none());
    t.insert("a".to_string(), "1".to_string());
    assert!(t.contains_key(&"a".to_string()));
    assert_eq!(t.get(&"a".to_string()).unwrap(), "1");
    assert_eq!(t.len(), 1);
    assert_eq!(t.key_at(0), "a");
    assert_eq!(t.val_at(0), "1");
}

#[test]
fn merge_takes_every_new_row() {
    let mut a = MappingTable::new();
    a.insert("x".to_string(), "1".to_string());
    let mut b = MappingTable::new();
    b.insert("y".to_string(), "2".to_string());
    b.insert("z".to_string(), "3".to_string());
    a.merge_from(b);
    assert_eq!(a.len(), 3);
    assert_eq!(a.get(&"x".to_string()).unwrap(), "1");
    assert_eq!(a.get(&"y".to_string()).unwrap(), "2");
    assert_eq!(a.get(&"z".to_string()).unwrap(), "3");
}

#[test]
fn canonicalize_prefers_the_resolved_path() {
    assert_eq!(
        canonicalize(Some("rel".to_string()), Some("/abs/rel".to_string())),
        "/abs/rel"
    );
    assert_eq!(canonicalize(Some("rel".to_string()), None), "rel");
    assert_eq!(canonicalize(None, None), ".");
}

#[test]
fn store_path_defaults_to_the_dotfile_under_the_root() {
    assert_eq!(store_path("/work", None), "/work/.obfsct");
    assert_eq!(
        store_path("/work", Some("/elsewhere/map.toml".to_string())),
        "/elsewhere/map.toml"
    );
}

#[test]
fn a_directory_at_the_store_path_is_a_config_error() {
    assert_eq!(store_precheck(true, false), Err(StoreError::Config));
    assert_eq!(store_precheck(true, true), Ok(()));
    assert_eq!(store_precheck(false, false), Ok(()));
}

#[test]
fn args_carry_the_invocation() {
    let a = Args {
        filter: None,
        deobfuscate: true,
        root: Some("/tree".to_string()),
    };
    assert!(a.deobfuscate);
    assert_eq!(a.root.as_deref(), Some("/tree"));
    assert!(a.filter.is_none());
}
