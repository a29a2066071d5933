//! Building configs: resolvers, path items, templates, validation failures,
//! and chain reconstruction; plus field-key and tokenizer behaviour.

use openpathresolver::Config;
use openpathresolver::ConfigBuilder;
use openpathresolver::Error;
use openpathresolver::FieldKey;
use openpathresolver::MetadataMap;
use openpathresolver::Owner;
use openpathresolver::PathItemArgs;
use openpathresolver::PathType;
use openpathresolver::PathValue;
use openpathresolver::PathAttributes;
use openpathresolver::Permission;
use openpathresolver::Resolvers;
use openpathresolver::Token;
use openpathresolver::Tokens;

fn item(key: &str, path: &str, parent: Option<&str>) -> PathItemArgs {
    PathItemArgs {
        key: FieldKey::new(key).unwrap(),
        path: path.to_string(),
        parent: parent.map(|p| FieldKey::new(p).unwrap()),
        permission: Permission::default(),
        owner: Owner::default(),
        path_type: PathType::default(),
        deferred: false,
        metadata: MetadataMap::new(),
    }
}

fn build_one(key: &str, path: &str) -> Config {
    ConfigBuilder::new()
        .add_path_item(item(key, path, None))
        .unwrap()
        .build()
        .unwrap()
}

#[test]
fn test_config_builder_add_string_resolver_success() {
    ConfigBuilder::new()
        .add_string_resolver("test", None)
        .unwrap()
        .build()
        .unwrap();
    ConfigBuilder::new()
        .add_string_resolver("test", Some(r#".+"#))
        .unwrap()
        .build()
        .unwrap();
}

#[test]
fn test_config_builder_add_string_resolver_failure_bad_pattern() {
    let err = ConfigBuilder::new()
        .add_string_resolver("test", Some("("))
        .unwrap_err();
    assert!(matches!(err, Error::RegexError(_)));
}

#[test]
fn test_config_builder_add_integer_resolver_success() {
    ConfigBuilder::new()
        .add_integer_resolver("test", 1)
        .unwrap()
        .build()
        .unwrap();
}

#[test]
fn test_config_builder_add_entity_resolver_success() {
    ConfigBuilder::new()
        .add_entity_resolver("key", "entity")
        .unwrap()
        .build()
        .unwrap();
}

#[test]
fn test_config_builder_add_path_item_success() {
    ConfigBuilder::new()
        .add_path_item(item("key", "path", None))
        .unwrap()
        .build()
        .unwrap();
}

#[test]
fn test_config_builder_add_path_item_with_parent_success() {
    ConfigBuilder::new()
        .add_path_item(item("parent", "/parent/path", None))
        .unwrap()
        .add_path_item(item("child", "child/path", Some("parent")))
        .unwrap()
        .build()
        .unwrap();
}

#[test]
fn test_config_builder_add_path_item_failure_invalid_parent_key() {
    let err = FieldKey::new("!").unwrap_err();
    match err {
        Error::ParseError(msg) => {
            assert_eq!(msg, "Invalid field key");
        },
        _ => panic!("Unexpected error type."),
    }
}

#[test]
fn test_config_builder_add_path_item_failure_invalid_key() {
    let err = FieldKey::new("!").unwrap_err();
    match err {
        Error::ParseError(msg) => {
            assert_eq!(msg, "Invalid field key");
        },
        _ => panic!("Unexpected error type."),
    }
}

#[test]
fn test_config_builder_build_parent_with_multiple_children_success() {
    ConfigBuilder::new()
        .add_path_item(item("parent", "/parent/path", None))
        .unwrap()
        .add_path_item(item("child1", "child1/path", Some("parent")))
        .unwrap()
        .add_path_item(item("child2", "child2/path", Some("parent")))
        .unwrap()
        .build()
        .unwrap();
}

#[test]
fn test_config_builder_build_failure_invalid_parent() {
    let err = ConfigBuilder::new()
        .add_path_item(item("key", "path", Some("invalid")))
        .unwrap()
        .build()
        .unwrap_err();
    match err {
        Error::MissingParentError(parent) => {
            assert_eq!(parent, FieldKey::new("invalid").unwrap());
        },
        _ => panic!("Unexpected error type."),
    }
}

#[test]
fn test_config_builder_build_failure_invalid_path() {
    let err = ConfigBuilder::new()
        .add_path_item(item("child", "path", Some("parent")))
        .unwrap()
        .add_path_item(item("parent", "/{123}parent", None))
        .unwrap()
        .build()
        .unwrap_err();
    match err {
        Error::ParseError(msg) => {
            assert_eq!(msg, "Invalid variable");
        },
        _ => panic!("Unexpected error type."),
    }
}

#[test]
fn test_config_builder_build_failure_infinite_recursion() {
    let err = ConfigBuilder::new()
        .add_path_item(item("child", "child", Some("parent")))
        .unwrap()
        .add_path_item(item("parent", "parent", Some("child")))
        .unwrap()
        .build()
        .unwrap_err();
    match err {
        Error::InfiniteRecursionError { item, parent } => {
            let item = item.as_str().to_string();
            let parent = parent.as_str().to_string();
            if parent == "parent" {
                assert_eq!(item, "child");
                assert_eq!(parent, "parent");
            } else {
                assert_eq!(item, "parent");
                assert_eq!(parent, "child");
            }
        },
        _ => panic!("Unexpected error type."),
    }
}

#[test]
fn test_config_builder_add_template_str_success() {
    ConfigBuilder::new()
        .add_template("key", "value")
        .unwrap()
        .build()
        .unwrap();
}

#[test]
fn test_config_get_item_success() {
    let config = ConfigBuilder::new()
        .add_path_item(item("parent", "/parent/path", None))
        .unwrap()
        .add_path_item(item("child", "child/path", Some("parent")))
        .unwrap()
        .build()
        .unwrap();

    let key = FieldKey::new("child").unwrap();
    let parts = config.get_item(&key).unwrap();
    assert_eq!(parts.len(), 5);
    assert_eq!(
        parts
            .iter()
            .map(|i| i.path.template_text())
            .collect::<std::path::PathBuf>(),
        std::path::PathBuf::from("/parent/path/child/path")
    );
}

#[test]
fn test_config_get_template() {
    let config = ConfigBuilder::new()
        .add_template("greeting", "hello {{ name }}")
        .unwrap()
        .build()
        .unwrap();
    let key = FieldKey::new("greeting").unwrap();
    assert_eq!(config.get_template(&key).unwrap(), "hello {{ name }}");
    assert!(config.get_template(&FieldKey::new("other").unwrap()).is_none());
}

#[test]
fn test_field_key_new_success() {
    for (input, expected) in [
        ("test", "test"),
        ("Test", "test"),
        ("_test", "_test"),
        ("test_", "test_"),
        ("_1test", "_1test"),
        ("abc.def", "abc.def"),
        ("abc.def.ghi", "abc.def.ghi"),
        ("abc123.def456", "abc123.def456"),
        ("_abc._def", "_abc._def"),
    ] {
        let result = FieldKey::new(input).unwrap();
        assert_eq!(result.as_str(), expected);
    }
}

#[test]
fn test_field_key_new_failure() {
    for input in [
        "", " abc ", "1", "abc.", "abc.123.", "abc.def.", "abc.def.123", "abc..def", ".abc",
        "1abc", "!", "a!", "abc.!", "abc.d!", ".", "..",
    ] {
        let err = FieldKey::new(input).unwrap_err();
        assert_eq!(err.message(), "Error while parsing: Invalid field key");
    }
}

#[test]
fn test_tokens_new_success() {
    let tokens = Tokens::new("abc {def}").unwrap();
    assert_eq!(tokens.tokens.len(), 2);
    assert!(matches!(&tokens.tokens[0], Token::Literal(s) if s == "abc "));
    assert!(matches!(&tokens.tokens[1], Token::Variable(k) if k.as_str() == "def"));
    assert_eq!(Tokens::new("").unwrap().tokens.len(), 0);
    assert_eq!(Tokens::new("{ abc }").unwrap().template_text(), "{abc}");
    assert_eq!(Tokens::new("{ABC}").unwrap().template_text(), "{abc}");
}

#[test]
fn test_tokens_new_failure() {
    for (input, expected) in [
        ("{", "Missing closing '}'"),
        ("}", "Missing opening '{'"),
        ("}{", "Missing opening '{'"),
        ("}{abc}", "Missing opening '{'"),
        ("{}", "Invalid variable"),
        ("{ }", "Invalid variable"),
        ("{123}", "Invalid variable"),
        ("{abc.123}", "Invalid variable"),
        ("{abc.}", "Invalid variable"),
        ("{abc..def}", "Invalid variable"),
        ("{{abc}}", "Invalid variable"),
    ] {
        let err = Tokens::new(input).unwrap_err();
        assert_eq!(err.message(), format!("Error while parsing: {}", expected));
    }
}

#[test]
fn test_token_draw_variable_failure_missing_field() {
    let token = Token::Variable(FieldKey::new("test").unwrap());
    let mut writer = String::new();
    let err = token
        .draw(&mut writer, &PathAttributes::new(), &Resolvers::new())
        .unwrap_err();
    assert_eq!(err.message(), "Could not find \"test\" in the fields.");
}

#[test]
fn test_token_draw_variable_failure_int_resolver_mismatch() {
    let token = Token::Variable(FieldKey::new("test").unwrap());
    let mut writer = String::new();
    let mut fields = PathAttributes::new();
    fields.insert(FieldKey::new("test").unwrap(), PathValue::Integer(1));
    let mut resolvers = Resolvers::new();
    resolvers.insert(
        FieldKey::new("test").unwrap(),
        openpathresolver::Resolver::String { pattern: None },
    );
    let err = token.draw(&mut writer, &fields, &resolvers).unwrap_err();
    assert_eq!(
        err.message(),
        "Resolver type String { pattern: None } is invalid for value Integer(1)."
    );
}

#[test]
fn test_token_draw_variable_failure_str_resolver_mismatch() {
    let token = Token::Variable(FieldKey::new("test").unwrap());
    let mut writer = String::new();
    let mut fields = PathAttributes::new();
    fields.insert(
        FieldKey::new("test").unwrap(),
        PathValue::String("test".to_string()),
    );
    let mut resolvers = Resolvers::new();
    resolvers.insert(
        FieldKey::new("test").unwrap(),
        openpathresolver::Resolver::Integer { padding: 1 },
    );
    let err = token.draw(&mut writer, &fields, &resolvers).unwrap_err();
    assert_eq!(
        err.message(),
        "Resolver type Integer { padding: 1 } is invalid for value String(\"test\")."
    );
}

#[test]
fn test_token_draw_integer_padding() {
    let token = Token::Variable(FieldKey::new("frame").unwrap());
    let mut fields = PathAttributes::new();
    fields.insert(FieldKey::new("frame").unwrap(), PathValue::Integer(12));
    let mut resolvers = Resolvers::new();
    resolvers.insert(
        FieldKey::new("frame").unwrap(),
        openpathresolver::Resolver::Integer { padding: 3 },
    );
    let mut out = String::new();
    token.draw(&mut out, &fields, &resolvers).unwrap();
    assert_eq!(out, "012");
}

#[test]
fn test_resolver_patterns() {
    assert_eq!(openpathresolver::Resolver::Default.pattern(), ".+?");
    assert_eq!(
        openpathresolver::Resolver::String { pattern: None }.pattern(),
        ".+?"
    );
    assert_eq!(
        openpathresolver::Resolver::String { pattern: Some("[a-z]+".to_string()) }.pattern(),
        "[a-z]+"
    );
    assert_eq!(
        openpathresolver::Resolver::Integer { padding: 3 }.pattern(),
        "\\d{3,}?"
    );
    assert_eq!(
        openpathresolver::Resolver::Integer { padding: 0 }.pattern(),
        "\\d{1,}?"
    );
}

#[test]
fn test_resolver_to_path_value() {
    let v = openpathresolver::Resolver::Default.to_path_value("abc").unwrap();
    assert!(matches!(v, PathValue::String(s) if s == "abc"));
    let v = openpathresolver::Resolver::Integer { padding: 3 }
        .to_path_value("012")
        .unwrap();
    assert!(matches!(v, PathValue::Integer(12)));
    let err = openpathresolver::Resolver::Integer { padding: 0 }
        .to_path_value("99999999")
        .unwrap_err();
    assert!(matches!(err, Error::ParseIntegerError(_)));
}

#[test]
fn test_regex_cache() {
    let mut cache = openpathresolver::RegexCache::with_capacity(2);
    let a = cache.regex("[a-z]+").unwrap();
    assert_eq!(a.pattern(), "[a-z]+");
    assert!(a.is_match("hello"));
    assert!(!a.is_match("123"));
    let b = cache.regex("[0-9]+").unwrap();
    assert!(b.is_match("123"));
    let again = cache.regex("[a-z]+").unwrap();
    assert_eq!(again.pattern(), "[a-z]+");
    let err = cache.regex("(").unwrap_err();
    assert!(matches!(err, Error::RegexError(_)));
}

fn sample_config() -> Config {
    build_one("key", "/path/to/{thing}")
}

#[test]
fn test_draw_regex_pattern() {
    let mut resolvers = Resolvers::new();
    resolvers.insert(
        FieldKey::new("frame").unwrap(),
        openpathresolver::Resolver::Integer { padding: 3 },
    );
    let tokens = Tokens::new("shot_{frame}.exr").unwrap();
    let mut out = String::new();
    tokens.draw_regex_pattern(&mut out, &resolvers);
    assert_eq!(out, r"shot_(\d{3,}?)\.exr");

    let tokens = Tokens::new("a/b{x}").unwrap();
    let mut out = String::new();
    tokens.draw_regex_pattern(&mut out, &Resolvers::new());
    assert_eq!(out, r"a[\\/]b(.+?)");
}

#[test]
fn test_draw_glob_pattern() {
    let tokens = Tokens::new("shot_{frame}.exr").unwrap();
    let mut out = String::new();
    tokens.draw_glob_pattern(&mut out);
    assert_eq!(out, "shot_*.exr");
}

#[test]
fn test_tokens_is_resolved_by_and_literal_resolution() {
    let tokens = Tokens::new("shot_{frame}").unwrap();
    let mut fields = PathAttributes::new();
    assert!(!tokens.is_resolved_by(&fields));
    assert!(tokens.has_variable_tokens());
    fields.insert(FieldKey::new("frame").unwrap(), PathValue::Integer(7));
    assert!(tokens.is_resolved_by(&fields));
    let mut resolvers = Resolvers::new();
    resolvers.insert(
        FieldKey::new("frame").unwrap(),
        openpathresolver::Resolver::Integer { padding: 2 },
    );
    let resolved = tokens.try_to_literal_token(&fields, &resolvers).unwrap();
    assert!(!resolved.has_variable_tokens());
    assert_eq!(resolved.template_text(), "shot_07");
}

#[test]
fn test_write_template_to_string() {
    let config = ConfigBuilder::new()
        .add_template("note", "hello")
        .unwrap()
        .build()
        .unwrap();
    let fields = openpathresolver::TemplateAttributes::new();
    let rendered = config
        .write_template_to_string("note", &fields, |text, _f| Ok(format!("<{}>", text)))
        .unwrap();
    assert_eq!(rendered, "<hello>");

    let err = config
        .write_template_to_string("missing", &fields, |text, _f| Ok(text.to_string()))
        .unwrap_err();
    assert!(matches!(err, Error::FieldError(_)));
    assert_eq!(err.message(), "Error while accessing field missing");

    let err = config
        .write_template_to_string("note", &fields, |_text, _f| {
            Err("engine refused".to_string())
        })
        .unwrap_err();
    assert_eq!(err.message(), "Error with template engine refused");
}

#[test]
fn test_entities() {
    let mut attrs = PathAttributes::new();
    attrs.insert(
        FieldKey::new("code").unwrap(),
        PathValue::String("sh010".to_string()),
    );
    let parent = openpathresolver::PathEntity::new("show1", "show", PathAttributes::new(), None);
    let entity = openpathresolver::PathEntity::new(
        "shot1",
        "shot",
        attrs,
        Some(std::sync::Arc::new(parent)),
    );
    assert_eq!(entity.entity_id(), "shot1");
    assert_eq!(entity.entity_type(), "shot");
    assert!(entity.parent().is_some());
    assert!(entity
        .attributes()
        .get(&FieldKey::new("code").unwrap())
        .is_some());

    let te = openpathresolver::TemplateEntity::new(
        "show1",
        "show",
        openpathresolver::TemplateAttributes::new(),
        None,
    );
    assert_eq!(te.entity_id(), "show1");
    assert_eq!(te.entity_type(), "show");
    assert!(te.parent().is_none());
}

#[test]
fn test_metadata_carries_through() {
    let mut metadata = MetadataMap::new();
    metadata.push(
        "source".to_string(),
        openpathresolver::MetadataValue::String("tpl".to_string()),
    );
    let mut args = item("key", "/path/{thing}", None);
    args.metadata = metadata;
    let config = ConfigBuilder::new().add_path_item(args).unwrap().build().unwrap();
    let mut fields = PathAttributes::new();
    fields.insert(
        FieldKey::new("thing").unwrap(),
        PathValue::String("value".to_string()),
    );
    let nodes = openpathresolver::get_workspace(&config, &fields).unwrap();
    let leaf = nodes.iter().find(|n| n.value() == "/path/value").unwrap();
    assert!(leaf.metadata().get("source").is_some());
    assert!(leaf.metadata().get("missing").is_none());
    let _ = sample_config();
}
