//! Path queries and workspace planning end to end: forward rendering,
//! inverse extraction, key lookup, search planning, and workspace output.

use openpathresolver::create_workspace;
use openpathresolver::find_paths;
use openpathresolver::get_fields;
use openpathresolver::get_key;
use openpathresolver::get_path;
use openpathresolver::get_workspace;
use openpathresolver::Config;
use openpathresolver::ConfigBuilder;
use openpathresolver::Error;
use openpathresolver::FieldKey;
use openpathresolver::MetadataMap;
use openpathresolver::Owner;
use openpathresolver::PathAttributes;
use openpathresolver::PathItemArgs;
use openpathresolver::PathType;
use openpathresolver::PathValue;
use openpathresolver::Permission;

fn item(key: &str, path: &str, parent: Option<&str>) -> PathItemArgs {
    PathItemArgs {
        key: FieldKey::new(key).unwrap(),
        path: path.to_string(),
        parent: parent.map(|p| FieldKey::new(p).unwrap()),
        permission: Permission::default(),
        owner: Owner::default(),
        path_type: PathType::default(),
        deferred: false,
        metadata: MetadataMap::new(),
    }
}

fn deferred_item(key: &str, path: &str, parent: Option<&str>) -> PathItemArgs {
    let mut args = item(key, path, parent);
    args.deferred = true;
    args
}

fn str_field(fields: &mut PathAttributes, key: &str, value: &str) {
    fields.insert(
        FieldKey::new(key).unwrap(),
        PathValue::String(value.to_string()),
    );
}

fn int_field(fields: &mut PathAttributes, key: &str, value: u16) {
    fields.insert(FieldKey::new(key).unwrap(), PathValue::Integer(value));
}

fn simple_config() -> Config {
    ConfigBuilder::new()
        .add_path_item(item("key", "/path/to/{thing}", None))
        .unwrap()
        .build()
        .unwrap()
}

#[test]
fn test_get_path_success() {
    let config = simple_config();
    let mut fields = PathAttributes::new();
    str_field(&mut fields, "thing", "value");
    let path = get_path(&config, "key", &fields).unwrap();
    assert_eq!(path, "/path/to/value");
}

#[test]
fn test_get_path_missing_item() {
    let config = simple_config();
    let fields = PathAttributes::new();
    let err = get_path(&config, "unknown", &fields).unwrap_err();
    assert!(matches!(err, Error::MissingItemError(_)));
    assert_eq!(err.message(), "Could not find item unknown");
}

#[test]
fn test_get_path_missing_field() {
    let config = simple_config();
    let fields = PathAttributes::new();
    let err = get_path(&config, "key", &fields).unwrap_err();
    assert_eq!(err.message(), "Could not find \"thing\" in the fields.");
}

#[test]
fn test_get_fields_success() {
    let config = simple_config();
    let fields = get_fields(&config, "key", "/path/to/value").unwrap().unwrap();
    assert_eq!(fields.len(), 1);
    let v = fields.get(&FieldKey::new("thing").unwrap()).unwrap();
    assert!(matches!(v, PathValue::String(s) if s == "value"));
}

#[test]
fn test_get_fields_wrong_shape() {
    let config = simple_config();
    assert!(get_fields(&config, "key", "/other/to/value").unwrap().is_none());
    assert!(get_fields(&config, "key", "/path/to").unwrap().is_none());
    assert!(get_fields(&config, "key", "relative/to/value").unwrap().is_none());
}

#[test]
fn test_get_fields_integer_padding() {
    let config = ConfigBuilder::new()
        .add_integer_resolver("some_int", 3)
        .unwrap()
        .add_path_item(item("key", "/path/to/{thing}/{some_int}", None))
        .unwrap()
        .build()
        .unwrap();
    let mut fields = PathAttributes::new();
    str_field(&mut fields, "thing", "value");
    int_field(&mut fields, "some_int", 12);
    let path = get_path(&config, "key", &fields).unwrap();
    assert_eq!(path, "/path/to/value/012");
    let back = get_fields(&config, "key", "/path/to/value/012").unwrap().unwrap();
    let v = back.get(&FieldKey::new("some_int").unwrap()).unwrap();
    assert!(matches!(v, PathValue::Integer(12)));
    assert!(get_fields(&config, "key", "/path/to/value/12").unwrap().is_none());
}

#[test]
fn test_get_fields_mismatched_field() {
    let config = ConfigBuilder::new()
        .add_path_item(item("key", "/{a}/{a}", None))
        .unwrap()
        .build()
        .unwrap();
    let err = get_fields(&config, "key", "/x/y").unwrap_err();
    match err {
        Error::MismatchedFieldError { key, value, other_value } => {
            assert_eq!(key.as_str(), "a");
            assert!(matches!(value, PathValue::String(s) if s == "y"));
            assert!(matches!(other_value, PathValue::String(s) if s == "x"));
        },
        _ => panic!("Unexpected error type."),
    }
    let same = get_fields(&config, "key", "/x/x").unwrap().unwrap();
    let v = same.get(&FieldKey::new("a").unwrap()).unwrap();
    assert!(matches!(v, PathValue::String(s) if s == "x"));
}

#[test]
fn test_get_fields_integer_overflow() {
    let config = ConfigBuilder::new()
        .add_integer_resolver("n", 1)
        .unwrap()
        .add_path_item(item("key", "/{n}", None))
        .unwrap()
        .build()
        .unwrap();
    let err = get_fields(&config, "key", "/99999999").unwrap_err();
    assert!(matches!(err, Error::ParseIntegerError(_)));
}

#[test]
fn test_get_fields_shaped_string() {
    let config = ConfigBuilder::new()
        .add_string_resolver("word", Some("[a-z]+"))
        .unwrap()
        .add_path_item(item("key", "/{word}", None))
        .unwrap()
        .build()
        .unwrap();
    let fields = get_fields(&config, "key", "/hello").unwrap().unwrap();
    let v = fields.get(&FieldKey::new("word").unwrap()).unwrap();
    assert!(matches!(v, PathValue::String(s) if s == "hello"));
    assert!(get_fields(&config, "key", "/1234").unwrap().is_none());
}

#[test]
fn test_get_fields_shaped_alternation() {
    let config = ConfigBuilder::new()
        .add_string_resolver("ext", Some("png|jpg"))
        .unwrap()
        .add_path_item(item("key", "/{ext}", None))
        .unwrap()
        .build()
        .unwrap();
    let fields = get_fields(&config, "key", "/png").unwrap().unwrap();
    let v = fields.get(&FieldKey::new("ext").unwrap()).unwrap();
    assert!(matches!(v, PathValue::String(s) if s == "png"));
    let fields = get_fields(&config, "key", "/jpg").unwrap().unwrap();
    let v = fields.get(&FieldKey::new("ext").unwrap()).unwrap();
    assert!(matches!(v, PathValue::String(s) if s == "jpg"));
    assert!(get_fields(&config, "key", "/pngxyz").unwrap().is_none());
    assert!(get_fields(&config, "key", "/xyzjpg").unwrap().is_none());
}

#[test]
fn test_get_key_success() {
    let config = simple_config();
    let mut fields = PathAttributes::new();
    str_field(&mut fields, "thing", "value");
    let result = get_key(&config, "/path/to/value", &fields).unwrap().unwrap();
    assert_eq!(result.as_str(), "key");
}

#[test]
fn test_get_key_no_match() {
    let config = simple_config();
    let mut fields = PathAttributes::new();
    str_field(&mut fields, "thing", "value");
    assert!(get_key(&config, "/path/to/other", &fields).unwrap().is_none());
}

#[test]
fn test_find_paths_scenario() {
    let config = ConfigBuilder::new()
        .add_integer_resolver("frame", 3)
        .unwrap()
        .add_path_item(item("root", "/base", None))
        .unwrap()
        .add_path_item(item("key", "path/to/{thing}_{frame}.txt", Some("root")))
        .unwrap()
        .build()
        .unwrap();
    let mut fields = PathAttributes::new();
    str_field(&mut fields, "thing", "value");

    let mut walk = find_paths(&config, "key", &fields).unwrap();
    assert_eq!(walk.next_dir().unwrap(), "/base/path/to");
    let names: Vec<String> = vec![
        "value_000.txt".to_string(),
        "value_001.txt".to_string(),
        "other_002.txt".to_string(),
        "value_002.txt".to_string(),
        "value_003.txt".to_string(),
        "value_004.txt".to_string(),
        "value_9.txt".to_string(),
    ];
    let done = walk.provide_listing(&names);
    assert!(done);
    assert!(walk.next_dir().is_none());
    let mut results: Vec<String> = walk.results().clone();
    results.sort();
    assert_eq!(
        results,
        vec![
            "/base/path/to/value_000.txt".to_string(),
            "/base/path/to/value_001.txt".to_string(),
            "/base/path/to/value_002.txt".to_string(),
            "/base/path/to/value_003.txt".to_string(),
            "/base/path/to/value_004.txt".to_string(),
        ]
    );
}

#[test]
fn test_find_paths_variable_root() {
    let config = ConfigBuilder::new()
        .add_path_item(item("root", "{root}", None))
        .unwrap()
        .add_path_item(item("key", "path/to/{thing}", Some("root")))
        .unwrap()
        .build()
        .unwrap();
    let mut fields = PathAttributes::new();
    str_field(&mut fields, "thing", "value");
    let err = find_paths(&config, "key", &fields).unwrap_err();
    assert!(matches!(err, Error::VariableRootPathError));
    assert_eq!(err.message(), "Cannot resolve a variable root path");
}

#[test]
fn test_find_paths_descends_directories() {
    let config = ConfigBuilder::new()
        .add_path_item(item("key", "/base/{show}/shots/{shot}", None))
        .unwrap()
        .build()
        .unwrap();
    let fields = PathAttributes::new();
    let mut walk = find_paths(&config, "key", &fields).unwrap();
    assert_eq!(walk.next_dir().unwrap(), "/base");
    let shows = vec!["alpha".to_string(), "beta".to_string()];
    assert!(!walk.provide_listing(&shows));
    let mut listed: Vec<String> = Vec::new();
    loop {
        let dir = match walk.next_dir() {
            Some(d) => d.clone(),
            None => break,
        };
        listed.push(dir);
        let names = vec!["s01".to_string(), "s02".to_string()];
        walk.provide_listing(&names);
    }
    listed.sort();
    assert_eq!(
        listed,
        vec!["/base/alpha/shots".to_string(), "/base/beta/shots".to_string()]
    );
    let mut results = walk.results().clone();
    results.sort();
    assert_eq!(
        results,
        vec![
            "/base/alpha/shots/s01".to_string(),
            "/base/alpha/shots/s02".to_string(),
            "/base/beta/shots/s01".to_string(),
            "/base/beta/shots/s02".to_string(),
        ]
    );
}

#[test]
fn test_get_workspace_success() {
    let config = simple_config();
    let mut fields = PathAttributes::new();
    str_field(&mut fields, "thing", "value");
    let resolved_items = get_workspace(&config, &fields).unwrap();
    assert_eq!(resolved_items.len(), 4);
    assert_eq!(resolved_items[0].value(), "/");
    assert_eq!(resolved_items[1].value(), "/path");
    assert_eq!(resolved_items[2].value(), "/path/to");
    assert_eq!(resolved_items[3].value(), "/path/to/value");
}

#[test]
fn test_get_workspace_scenario_tree() {
    let config = ConfigBuilder::new()
        .add_path_item(item("root", "{root}", None))
        .unwrap()
        .add_path_item(item("key1", "path/to/{thing}", Some("root")))
        .unwrap()
        .add_path_item(item("key2", "path/to/a/{thing}", Some("root")))
        .unwrap()
        .add_path_item(item("key3", "path/to/b/{thing}", Some("root")))
        .unwrap()
        .add_path_item(item("key4", "path/to/c/{not_specified}", Some("root")))
        .unwrap()
        .build()
        .unwrap();
    let mut fields = PathAttributes::new();
    str_field(&mut fields, "root", "/r");
    str_field(&mut fields, "thing", "value");
    let nodes = get_workspace(&config, &fields).unwrap();
    let values: Vec<&str> = nodes.iter().map(|n| n.value()).collect();
    assert_eq!(
        values,
        vec![
            "/r",
            "/r/path",
            "/r/path/to",
            "/r/path/to/a",
            "/r/path/to/a/value",
            "/r/path/to/b",
            "/r/path/to/b/value",
            "/r/path/to/c",
            "/r/path/to/value",
        ]
    );
}

#[test]
fn test_get_workspace_idempotent() {
    let config = simple_config();
    let mut fields = PathAttributes::new();
    str_field(&mut fields, "thing", "value");
    let first = get_workspace(&config, &fields).unwrap();
    let second = get_workspace(&config, &fields).unwrap();
    assert_eq!(first.len(), second.len());
    for (a, b) in first.iter().zip(second.iter()) {
        assert_eq!(a.value(), b.value());
        assert_eq!(a.deferred(), b.deferred());
        assert_eq!(a.permission(), b.permission());
        assert_eq!(a.owner(), b.owner());
    }
}

#[test]
fn test_get_workspace_deferred_unresolved_dropped() {
    let config = ConfigBuilder::new()
        .add_path_item(item("root", "/r", None))
        .unwrap()
        .add_path_item(deferred_item("lazy", "cache/{tag}", Some("root")))
        .unwrap()
        .build()
        .unwrap();
    let fields = PathAttributes::new();
    let nodes = get_workspace(&config, &fields).unwrap();
    let values: Vec<&str> = nodes.iter().map(|n| n.value()).collect();
    assert_eq!(values, vec!["/", "/r", "/r/cache"]);
}

#[test]
fn test_get_workspace_deferred_resolved_appears() {
    let config = ConfigBuilder::new()
        .add_path_item(item("root", "/r", None))
        .unwrap()
        .add_path_item(deferred_item("lazy", "cache/{tag}", Some("root")))
        .unwrap()
        .build()
        .unwrap();
    let mut fields = PathAttributes::new();
    str_field(&mut fields, "tag", "x");
    let nodes = get_workspace(&config, &fields).unwrap();
    let values: Vec<&str> = nodes.iter().map(|n| n.value()).collect();
    assert_eq!(values, vec!["/", "/r", "/r/cache", "/r/cache/x"]);
}

#[test]
fn test_get_workspace_literal_deferred_ancestor_suppresses() {
    let config = ConfigBuilder::new()
        .add_path_item(deferred_item("root", "/r/cache", None))
        .unwrap()
        .add_path_item(deferred_item("lazy", "deep/{tag}", Some("root")))
        .unwrap()
        .build()
        .unwrap();
    let mut fields = PathAttributes::new();
    str_field(&mut fields, "tag", "x");
    let nodes = get_workspace(&config, &fields).unwrap();
    let values: Vec<&str> = nodes.iter().map(|n| n.value()).collect();
    assert_eq!(values, vec!["/", "/r"]);
}

#[test]
fn test_get_workspace_permission_inheritance() {
    let mut root = item("root", "/r", None);
    root.permission = Permission::ReadOnly;
    root.owner = Owner::Project;
    let config = ConfigBuilder::new()
        .add_path_item(root)
        .unwrap()
        .add_path_item(item("child", "sub/{x}", Some("root")))
        .unwrap()
        .build()
        .unwrap();
    let mut fields = PathAttributes::new();
    str_field(&mut fields, "x", "v");
    let nodes = get_workspace(&config, &fields).unwrap();
    for node in nodes.iter() {
        if node.value() == "/" {
            assert_eq!(*node.permission(), Permission::Inherit);
            assert_eq!(*node.owner(), Owner::Inherit);
        } else {
            assert_eq!(*node.permission(), Permission::ReadOnly);
            assert_eq!(*node.owner(), Owner::Project);
        }
    }
    let leaf = nodes.iter().find(|n| n.value() == "/r/sub/v").unwrap();
    assert_eq!(leaf.key().unwrap().as_str(), "child");
    assert_eq!(*leaf.path_type(), PathType::Directory);
    assert!(!leaf.deferred());
}

#[test]
fn test_create_workspace_dispatch_order() {
    let config = simple_config();
    let mut fields = PathAttributes::new();
    str_field(&mut fields, "thing", "value");
    let template_fields = openpathresolver::TemplateAttributes::new();
    let seen = std::cell::RefCell::new(Vec::<String>::new());
    create_workspace(&config, &fields, &template_fields, |_c, node, _t| {
        seen.borrow_mut().push(node.value().to_string());
        Ok(())
    })
    .unwrap();
    let seen = seen.into_inner();
    assert_eq!(seen.len(), 4);
    assert!(seen.contains(&"/path/to/value".to_string()));
    let pos_dir = seen.iter().position(|p| p == "/path/to").unwrap();
    let pos_leaf = seen.iter().position(|p| p == "/path/to/value").unwrap();
    assert!(pos_dir < pos_leaf);
}

#[test]
fn test_create_workspace_stops_on_failure() {
    let config = simple_config();
    let mut fields = PathAttributes::new();
    str_field(&mut fields, "thing", "value");
    let template_fields = openpathresolver::TemplateAttributes::new();
    let err = create_workspace(&config, &fields, &template_fields, |_c, node, _t| {
        if node.value() == "/path" {
            Err(Error::RuntimeError("refused".to_string()))
        } else {
            Ok(())
        }
    })
    .unwrap_err();
    assert_eq!(err.message(), "Runtime Error: refused");
}

#[test]
fn test_shared_prefixes_not_duplicated() {
    let config = ConfigBuilder::new()
        .add_path_item(item("a", "/r/path/to/{thing}", None))
        .unwrap()
        .add_path_item(item("b", "/r/path/to/other/{thing}", None))
        .unwrap()
        .build()
        .unwrap();
    let mut fields = PathAttributes::new();
    str_field(&mut fields, "thing", "v");
    let nodes = get_workspace(&config, &fields).unwrap();
    let values: Vec<&str> = nodes.iter().map(|n| n.value()).collect();
    assert_eq!(
        values,
        vec![
            "/",
            "/r",
            "/r/path",
            "/r/path/to",
            "/r/path/to/other",
            "/r/path/to/other/v",
            "/r/path/to/v",
        ]
    );
}
