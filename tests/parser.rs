use shell::ast::{Connector, EnvRef, ParseResult, ParsedWord, Pipeline, RedirectKind, SimpleCommand, WordSegment};
use shell::expander::{expand_word, EnvMap};
use shell::parser::Parser;

fn lit(s: &str) -> WordSegment {
    WordSegment::Literal(s.to_string())
}

fn parse(s: &str) -> ParseResult {
    Parser::parse_input(s).unwrap()
}

#[test]
fn test_simple_command() {
    let result = Parser::parse_input("echo hello").unwrap();
    assert_eq!(result.elements.len(), 1);
    assert_eq!(result.elements[0].pipeline.commands.len(), 1);
    assert_eq!(result.elements[0].pipeline.commands[0].args.len(), 2);
}

#[test]
fn parser_test_env_var() {
    let result = Parser::parse_input("echo $HOME").unwrap();
    let cmd = &result.elements[0].pipeline.commands[0];
    assert_eq!(cmd.args.len(), 2);

    if let WordSegment::EnvVar(env) = &cmd.args[1].segments[0] {
        assert_eq!(env.name, "HOME");
        assert_eq!(env.default, None);
    } else {
        panic!("Expected EnvVar");
    }
}

#[test]
fn test_env_var_with_default() {
    let result = Parser::parse_input("echo ${FOO:-default}").unwrap();
    let cmd = &result.elements[0].pipeline.commands[0];

    if let WordSegment::EnvVar(env) = &cmd.args[1].segments[0] {
        assert_eq!(env.name, "FOO");
        assert_eq!(env.default, Some("default".to_string()));
    } else {
        panic!("Expected EnvVar");
    }
}

#[test]
fn test_pipeline() {
    let result = Parser::parse_input("ls | cat").unwrap();
    assert_eq!(result.elements.len(), 1);
    assert_eq!(result.elements[0].pipeline.commands.len(), 2);
}

#[test]
fn parser_test_and_or() {
    let result = Parser::parse_input("cmd1 && cmd2 || cmd3").unwrap();
    assert_eq!(result.elements.len(), 3);
    assert_eq!(result.elements[0].connector, Connector::Unconditional);
    assert_eq!(result.elements[1].connector, Connector::And);
    assert_eq!(result.elements[2].connector, Connector::Or);
}

#[test]
fn parser_test_redirect() {
    let result = Parser::parse_input("echo hello > file").unwrap();
    let cmd = &result.elements[0].pipeline.commands[0];
    assert_eq!(cmd.redirects.len(), 1);
    assert_eq!(cmd.redirects[0].kind, RedirectKind::Stdout);
}

#[test]
fn test_command_substitution() {
    let result = Parser::parse_input("echo $(ls)").unwrap();
    assert_eq!(result.substitutions.len(), 1);
    assert_eq!(result.substitutions[0].input, "ls");
}

#[test]
fn test_multiline() {
    let result = Parser::parse_input("echo hello\necho world").unwrap();
    assert_eq!(result.elements.len(), 2);
}

#[test]
fn test_multiline_with_empty_lines() {
    let result = Parser::parse_input("\n\necho hello\n\necho world\n").unwrap();
    assert_eq!(result.elements.len(), 2);
}

#[test]
fn echo_hello_in_full() {
    let r = parse("echo hello");
    assert_eq!(r.elements.len(), 1);
    assert_eq!(r.elements[0].connector, Connector::Unconditional);
    let cmds = &r.elements[0].pipeline.commands;
    assert_eq!(cmds.len(), 1);
    assert_eq!(cmds[0].args, vec![ParsedWord::literal("echo"), ParsedWord::literal("hello")]);
    assert!(cmds[0].redirects.is_empty());
    assert!(r.substitutions.is_empty());
}

#[test]
fn home_variable_expands_or_vanishes() {
    let r = parse("echo $HOME");
    let word = &r.elements[0].pipeline.commands[0].args[1];
    assert_eq!(
        word.segments,
        vec![WordSegment::EnvVar(EnvRef { name: "HOME".to_string(), default: None })]
    );
    let mut env = EnvMap::new();
    env.insert("HOME".to_string(), "/home/u".to_string());
    assert_eq!(expand_word(word, &env), "/home/u");
    assert_eq!(expand_word(word, &EnvMap::new()), "");
}

#[test]
fn default_value_used_when_unset() {
    let r = parse("echo ${FOO:-default}");
    let word = &r.elements[0].pipeline.commands[0].args[1];
    assert_eq!(
        word.segments,
        vec![WordSegment::EnvVar(EnvRef {
            name: "FOO".to_string(),
            default: Some("default".to_string())
        })]
    );
    assert_eq!(expand_word(word, &EnvMap::new()), "default");
}

#[test]
fn braced_variable_without_default() {
    let r = parse("echo ${FOO}bar");
    let word = &r.elements[0].pipeline.commands[0].args[1];
    assert_eq!(
        word.segments,
        vec![
            WordSegment::EnvVar(EnvRef { name: "FOO".to_string(), default: None }),
            lit("bar")
        ]
    );
}

#[test]
fn redirect_keeps_arguments_apart() {
    let r = parse("echo hello > file");
    let cmd = &r.elements[0].pipeline.commands[0];
    assert_eq!(cmd.args, vec![ParsedWord::literal("echo"), ParsedWord::literal("hello")]);
    assert_eq!(cmd.redirects.len(), 1);
    assert_eq!(cmd.redirects[0].kind, RedirectKind::Stdout);
    assert_eq!(cmd.redirects[0].target, ParsedWord::literal("file"));
}

#[test]
fn several_redirects_in_order() {
    let r = parse("sort < in >> out");
    let cmd = &r.elements[0].pipeline.commands[0];
    assert_eq!(cmd.redirects.len(), 2);
    assert_eq!(cmd.redirects[0].kind, RedirectKind::Stdin);
    assert_eq!(cmd.redirects[0].target, ParsedWord::literal("in"));
    assert_eq!(cmd.redirects[1].kind, RedirectKind::StdoutAppend);
    assert_eq!(cmd.redirects[1].target, ParsedWord::literal("out"));
}

#[test]
fn substitution_as_its_own_word() {
    let r = parse("echo $(ls)");
    assert_eq!(r.substitutions.len(), 1);
    assert_eq!(r.substitutions[0].id, 0);
    assert_eq!(r.substitutions[0].input, "ls");
    assert_eq!(
        r.elements[0].pipeline.commands[0].args[1].segments,
        vec![WordSegment::CommandSubst(0)]
    );
}

#[test]
fn substitution_inside_double_quotes() {
    let r = parse("echo \"a$(echo b)c\"");
    assert_eq!(
        r.elements[0].pipeline.commands[0].args[1].segments,
        vec![lit("a"), WordSegment::CommandSubst(0), lit("c")]
    );
    assert_eq!(r.substitutions.len(), 1);
    assert_eq!(r.substitutions[0].input, "echo b");
}

#[test]
fn no_expansion_in_single_quotes() {
    let r = parse("echo 'a$HOME'");
    assert_eq!(
        r.elements[0].pipeline.commands[0].args[1].segments,
        vec![lit("a$HOME")]
    );
}

#[test]
fn blank_lines_between_statements() {
    let r = parse("\n\necho hello\n\necho world\n");
    assert_eq!(r.elements.len(), 2);
    assert_eq!(r.elements[0].connector, Connector::Unconditional);
    assert_eq!(r.elements[1].connector, Connector::Unconditional);
}

#[test]
fn empty_and_blank_input() {
    let r = parse("");
    assert!(r.elements.is_empty());
    assert!(r.substitutions.is_empty());
    let r = parse("  \n\t\n ");
    assert!(r.elements.is_empty());
    assert!(r.substitutions.is_empty());
}

#[test]
fn substitution_ids_follow_first_appearance() {
    let r = parse("echo $(a) \"x$(b)\" $(c)\necho $(d)");
    let ids: Vec<u32> = r.substitutions.iter().map(|s| s.id).collect();
    assert_eq!(ids, vec![0, 1, 2, 3]);
    let inputs: Vec<&str> = r.substitutions.iter().map(|s| s.input.as_str()).collect();
    assert_eq!(inputs, vec!["a", "b", "c", "d"]);
    let first = &r.elements[0].pipeline.commands[0].args;
    assert_eq!(first[1].segments, vec![WordSegment::CommandSubst(0)]);
    assert_eq!(first[2].segments, vec![lit("x"), WordSegment::CommandSubst(1)]);
    assert_eq!(first[3].segments, vec![WordSegment::CommandSubst(2)]);
    assert_eq!(
        r.elements[1].pipeline.commands[0].args[1].segments,
        vec![WordSegment::CommandSubst(3)]
    );
}

#[test]
fn nested_substitution_body_is_kept_as_text() {
    let r = parse("echo $(echo $(ls))");
    assert_eq!(r.substitutions.len(), 1);
    assert_eq!(r.substitutions[0].input, "echo $(ls )");
    let r = parse("echo \"$(a (b) c)\"");
    assert_eq!(r.substitutions[0].input, "a (b) c");
}

#[test]
fn substitution_body_requotes_tokens() {
    let r = parse("echo $(echo 'x y' | cat)");
    assert_eq!(r.substitutions[0].input, "echo 'x y' | cat");
}

#[test]
fn lone_dollar_is_literal() {
    let r = parse("echo a$ $");
    let args = &r.elements[0].pipeline.commands[0].args;
    assert_eq!(args[1].segments, vec![lit("a$")]);
    assert_eq!(args[2].segments, vec![lit("$")]);
}

#[test]
fn malformed_brace_stays_literal() {
    let r = parse("echo \"${A x} $B\"");
    assert_eq!(
        r.elements[0].pipeline.commands[0].args[1].segments,
        vec![lit("${A x} $B")]
    );
    let r = parse("echo ${}");
    assert_eq!(r.elements[0].pipeline.commands[0].args[1].segments, vec![lit("${}")]);
}

#[test]
fn empty_quoted_word_is_one_empty_literal() {
    let r = parse("echo \"\"");
    let word = &r.elements[0].pipeline.commands[0].args[1];
    assert_eq!(word.segments, vec![lit("")]);
    assert!(word.is_empty());
}

#[test]
fn trailing_pipe_is_an_error() {
    let e = Parser::parse_input("echo |").unwrap_err();
    assert_eq!(e.message, "unexpected token");
    assert_eq!(e.position, 6);
    let e = Parser::parse_input("echo | | cat").unwrap_err();
    assert_eq!(e.message, "unexpected token");
    let e = Parser::parse_input("| cat").unwrap_err();
    assert_eq!(e.message, "unexpected token");
}

#[test]
fn operator_without_command_is_an_error() {
    assert!(Parser::parse_input("&& a").is_err());
    let e = Parser::parse_input("a &&").unwrap_err();
    assert_eq!(e.message, "unexpected token");
    assert_eq!(e.position, 4);
    assert!(Parser::parse_input("a ||\n\n").is_err());
    assert!(Parser::parse_input("a && && b").is_err());
    let e = Parser::parse_input("é )").unwrap_err();
    assert_eq!(e.message, "unexpected token");
    assert_eq!(e.position, 3);
}

#[test]
fn missing_redirect_target() {
    let e = Parser::parse_input("echo >").unwrap_err();
    assert_eq!(e.message, "Expected redirect target");
    let e = Parser::parse_input("echo > | cat").unwrap_err();
    assert_eq!(e.message, "Expected redirect target");
    assert_eq!(e.position, 7);
}

#[test]
fn unterminated_substitution() {
    let e = Parser::parse_input("echo $(ls").unwrap_err();
    assert_eq!(e.message, "unterminated command substitution");
    assert_eq!(e.position, 5);
    let e = Parser::parse_input("echo \"$(ls\"").unwrap_err();
    assert_eq!(e.message, "unterminated command substitution");
}

#[test]
fn lexing_error_reaches_the_parser() {
    let e = Parser::parse_input("echo \"abc").unwrap_err();
    assert_eq!(e.message, "unterminated double-quoted string");
    assert_eq!(e.position, 5);
}

#[test]
fn connector_spans_a_line_break() {
    let r = parse("a &&\nb");
    assert_eq!(r.elements.len(), 2);
    assert_eq!(r.elements[1].connector, Connector::And);
}

#[test]
fn parser_on_tokens() {
    let tokens = shell::lexer::tokenize("a | b").unwrap();
    let mut p = Parser::new(tokens);
    let r = p.parse().unwrap();
    assert_eq!(r.elements[0].pipeline.commands.len(), 2);
    let tokens = shell::lexer::tokenize("a | | b").unwrap();
    let e = Parser::new(tokens).parse().unwrap_err();
    assert_eq!(e.position, 2);
}

#[test]
fn redirect_only_command_is_kept() {
    let r = parse("> out");
    assert_eq!(r.elements.len(), 1);
    let cmd = &r.elements[0].pipeline.commands[0];
    assert!(cmd.args.is_empty());
    assert_eq!(cmd.redirects.len(), 1);
    assert_eq!(cmd.redirects[0].target, ParsedWord::literal("out"));
}

#[test]
fn every_substitution_is_referenced_once() {
    let r = parse("> \"$(a)\" && echo $(b) \"$(c)$(d)\" | cat < \"$(e)\"x");
    let mut seen: Vec<u32> = Vec::new();
    for e in &r.elements {
        for c in &e.pipeline.commands {
            assert!(!(c.args.is_empty() && c.redirects.is_empty()));
            let words = c.args.iter().chain(c.redirects.iter().map(|rd| &rd.target));
            for w in words {
                assert!(!w.segments.is_empty());
                for s in &w.segments {
                    if let WordSegment::CommandSubst(id) = s {
                        seen.push(*id);
                    }
                }
            }
        }
    }
    seen.sort();
    let ids: Vec<u32> = r.substitutions.iter().map(|s| s.id).collect();
    assert_eq!(seen, ids);
    assert_eq!(ids, (0..ids.len() as u32).collect::<Vec<u32>>());
}

#[test]
fn first_element_after_leading_newline_is_unconditional() {
    let r = parse("\na || b");
    assert_eq!(r.elements[0].connector, Connector::Unconditional);
    assert_eq!(r.elements[1].connector, Connector::Or);
}

#[test]
fn name_stops_at_non_name_character() {
    let r = parse("echo $A-b");
    assert_eq!(
        r.elements[0].pipeline.commands[0].args[1].segments,
        vec![
            WordSegment::EnvVar(EnvRef { name: "A".to_string(), default: None }),
            lit("-b")
        ]
    );
}

#[test]
fn result_constructors() {
    let r = ParseResult::single(SimpleCommand::new());
    assert_eq!(r.elements.len(), 1);
    assert_eq!(r.elements[0].connector, Connector::Unconditional);
    assert_eq!(r.elements[0].pipeline.commands.len(), 1);
    assert!(ParseResult::new().elements.is_empty());
    assert!(Pipeline::new().commands.is_empty());
    assert_eq!(Pipeline::single(SimpleCommand::new()).commands.len(), 1);
    assert!(SimpleCommand::new().is_empty());
    assert!(ParsedWord::literal("").is_empty());
    assert!(!ParsedWord::literal("x").is_empty());
    let e = shell::ast::ParseError::new("boom", 7);
    assert_eq!(e.message, "boom");
    assert_eq!(e.position, 7);
}

#[test]
fn substitution_body_escapes_double_quotes() {
    let r = parse("echo $(echo \"a\\\"b\")");
    assert_eq!(r.substitutions[0].input, "echo \"a\\\"b\"");
    let tokens = shell::lexer::tokenize(&r.substitutions[0].input).unwrap();
    assert_eq!(
        tokens,
        vec![
            shell::lexer::Token::Word("echo".to_string()),
            shell::lexer::Token::DoubleQuoted("a\"b".to_string())
        ]
    );
}

#[test]
fn substitution_body_keeps_backslashes() {
    let r = parse("echo $(echo \"a\\\\n\")");
    assert_eq!(r.substitutions[0].input, "echo \"a\\\\n\"");
    let tokens = shell::lexer::tokenize(&r.substitutions[0].input).unwrap();
    assert_eq!(tokens[1], shell::lexer::Token::DoubleQuoted("a\\n".to_string()));
}

#[test]
fn failed_word_records_no_substitution() {
    assert!(Parser::parse_input("echo \"$(a)$(b\"").is_err());
    let tokens = shell::lexer::tokenize("echo \"$(a)$(b\"").unwrap();
    let mut p = Parser::new(tokens);
    let e = p.parse().unwrap_err();
    assert_eq!(e.message, "unterminated command substitution");
}

#[test]
fn substitution_body_keeps_other_whitespace() {
    let r = parse("echo $(ls\r)");
    assert_eq!(r.substitutions[0].input, "ls\r");
    let r = parse("echo $(ls\u{a0})");
    assert_eq!(r.substitutions[0].input, "ls\u{a0}");
    let r = parse("echo $(\n ls \n)");
    assert_eq!(r.substitutions[0].input, "ls");
}

#[test]
fn ids_follow_source_order_across_arguments_and_redirects() {
    let r = parse("cat $(a) > \"$(b)\" $(c)");
    let inputs: Vec<&str> = r.substitutions.iter().map(|s| s.input.as_str()).collect();
    assert_eq!(inputs, vec!["a", "b", "c"]);
    let cmd = &r.elements[0].pipeline.commands[0];
    assert_eq!(cmd.args[1].segments, vec![WordSegment::CommandSubst(0)]);
    assert_eq!(cmd.redirects[0].target.segments, vec![WordSegment::CommandSubst(1)]);
    assert_eq!(cmd.args[2].segments, vec![WordSegment::CommandSubst(2)]);
}
