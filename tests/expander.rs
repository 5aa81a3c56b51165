use shell::ast::{EnvRef, ParsedWord, WordSegment};
use shell::expander::{env_list_to_map, expand_word, EnvMap};

#[test]
fn test_literal() {
    let word = ParsedWord::literal("hello");
    let env = EnvMap::new();
    assert_eq!(expand_word(&word, &env), "hello");
}

#[test]
fn expander_test_env_var() {
    let word = ParsedWord {
        segments: vec![WordSegment::EnvVar(EnvRef {
            name: "HOME".to_string(),
            default: None,
        })],
    };
    let mut env = EnvMap::new();
    env.insert("HOME".to_string(), "/home/user".to_string());
    assert_eq!(expand_word(&word, &env), "/home/user");
}

#[test]
fn test_env_var_default() {
    let word = ParsedWord {
        segments: vec![WordSegment::EnvVar(EnvRef {
            name: "MISSING".to_string(),
            default: Some("default".to_string()),
        })],
    };
    let env = EnvMap::new();
    assert_eq!(expand_word(&word, &env), "default");
}

#[test]
fn test_mixed() {
    let word = ParsedWord {
        segments: vec![
            WordSegment::Literal("Hello, ".to_string()),
            WordSegment::EnvVar(EnvRef {
                name: "USER".to_string(),
                default: None,
            }),
            WordSegment::Literal("!".to_string()),
        ],
    };
    let mut env = EnvMap::new();
    env.insert("USER".to_string(), "world".to_string());
    assert_eq!(expand_word(&word, &env), "Hello, world!");
}

#[test]
fn literals_expand_to_their_text_whatever_the_env() {
    let word = ParsedWord {
        segments: vec![
            WordSegment::Literal("ab".to_string()),
            WordSegment::Literal("$HOME".to_string()),
        ],
    };
    let mut env = EnvMap::new();
    env.insert("HOME".to_string(), "/root".to_string());
    assert_eq!(expand_word(&word, &env), "ab$HOME");
    assert_eq!(expand_word(&word, &EnvMap::new()), "ab$HOME");
}

#[test]
fn set_variable_wins_over_default() {
    let word = ParsedWord {
        segments: vec![WordSegment::EnvVar(EnvRef {
            name: "FOO".to_string(),
            default: Some("fallback".to_string()),
        })],
    };
    let mut env = EnvMap::new();
    env.insert("FOO".to_string(), "set".to_string());
    assert_eq!(expand_word(&word, &env), "set");
}

#[test]
fn unset_variable_without_default_is_empty() {
    let word = ParsedWord {
        segments: vec![WordSegment::EnvVar(EnvRef {
            name: "NOPE".to_string(),
            default: None,
        })],
    };
    assert_eq!(expand_word(&word, &EnvMap::new()), "");
}

#[test]
fn command_substitution_expands_to_nothing() {
    let word = ParsedWord {
        segments: vec![
            WordSegment::Literal("x".to_string()),
            WordSegment::CommandSubst(0),
            WordSegment::Literal("y".to_string()),
        ],
    };
    assert_eq!(expand_word(&word, &EnvMap::new()), "xy");
}

#[test]
fn env_list_last_writer_wins() {
    let env = env_list_to_map(&[
        ("A".to_string(), "1".to_string()),
        ("B".to_string(), "2".to_string()),
        ("A".to_string(), "3".to_string()),
    ]);
    assert_eq!(env.get(&"A".to_string()), Some(&"3".to_string()));
    assert_eq!(env.get(&"B".to_string()), Some(&"2".to_string()));
    assert_eq!(env.get(&"C".to_string()), None);
}

#[test]
fn insert_replaces_value() {
    let mut env = EnvMap::new();
    env.insert("K".to_string(), "old".to_string());
    env.insert("K".to_string(), "new".to_string());
    assert_eq!(env.get(&"K".to_string()), Some(&"new".to_string()));
}
