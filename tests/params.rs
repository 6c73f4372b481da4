use textconf::params::{BraceIterator, Parameter, ParameterError, ParameterIterator, ParameterReplacer};

fn collect(input: &str) -> Vec<Parameter> {
    let mut it = ParameterIterator::new(input);
    let mut v = Vec::new();
    while let Some(p) = it.next() {
        v.push(p);
    }
    v
}

fn brace_contents(input: &str) -> Vec<String> {
    let mut it = BraceIterator::new(input);
    let mut v = Vec::new();
    while let Some(b) = it.next() {
        v.push(b.content().to_string());
    }
    v
}

#[test]
fn brace_iter_simple() {
    let vec = brace_contents("abc{def}ghi{jkl}mno");
    assert_eq!(vec, vec!["def", "jkl"]);
}

#[test]
fn brace_iter_nested_inner_braces() {
    assert_eq!(brace_contents("{a{x}b{y}c}"), vec!["x", "y"]);
}

#[test]
fn brace_iter_nested_doubled_outer() {
    assert_eq!(brace_contents("{{a{x}b{y}c}}"), vec!["x", "y"]);
}

#[test]
fn brace_iter_nested_escaped_runs() {
    assert_eq!(brace_contents("a{{{x}}}b{{{y}}}c{{z}}d{{{{z}}}}"), vec!["x", "y"]);
}

#[test]
fn brace_iter_nested_inside_group() {
    assert_eq!(brace_contents("{a{{{x}}}b{{{y}}}c{{z}}d}"), vec!["x", "y"]);
}

#[test]
fn brace_iter_whitespace_abandons() {
    assert_eq!(brace_contents("{a b}{c\td}{e}"), vec!["e"]);
    assert_eq!(brace_contents("{a\u{00A0}b}{f}"), vec!["f"]);
}

#[test]
fn brace_iter_unmatched() {
    assert_eq!(brace_contents("}a{b"), Vec::<String>::new());
    assert_eq!(brace_contents(""), Vec::<String>::new());
    assert_eq!(brace_contents("{}"), vec![""]);
}

#[test]
fn brace_positions() {
    let mut it = BraceIterator::new("ab{cd}e");
    let b = it.next().unwrap();
    assert_eq!(b.start(), 2);
    assert_eq!(b.end(), 6);
    assert!(it.next().is_none());
}

#[test]
fn test_parameter_creation() {
    let input = "{test}{test_default=default}{test_format:.2f}{test_both:.2f=3.14}";
    let params = collect(input);

    assert_eq!(params[0].name(), "test");
    assert_eq!(params[0].format(), None);
    assert_eq!(params[0].default(), None);

    assert_eq!(params[1].name(), "test_default");
    assert_eq!(params[1].format(), None);
    assert_eq!(params[1].default(), Some("default"));

    assert_eq!(params[2].name(), "test_format");
    assert_eq!(params[2].format(), Some(".2f"));
    assert_eq!(params[2].default(), None);

    assert_eq!(params[3].name(), "test_both");
    assert_eq!(params[3].format(), Some(".2f"));
    assert_eq!(params[3].default(), Some("3.14"));
}

#[test]
fn test_parameter_content() {
    let input = "{test}{test_default=default}{test_format:.2f}{test_both:.2f=3.14}";
    let params = collect(input);

    assert_eq!(params[0].content(), "test");
    assert_eq!(params[1].content(), "test_default=default");
    assert_eq!(params[2].content(), "test_format:.2f");
    assert_eq!(params[3].content(), "test_both:.2f=3.14");
}

#[test]
fn test_parameter_name_with_format() {
    let input = "{test}{test_default=default}{test_format:.2f}{test_both:.2f=3.14}";
    let params = collect(input);

    assert_eq!(params[0].name_with_format(), "test");
    assert_eq!(params[1].name_with_format(), "test_default");
    assert_eq!(params[2].name_with_format(), "test_format:.2f");
    assert_eq!(params[3].name_with_format(), "test_both:.2f");
}

#[test]
fn parameter_positions() {
    let params = collect("x{a}yy{b=1}");
    assert_eq!(params.len(), 2);
    assert_eq!((params[0].start(), params[0].end()), (1, 4));
    assert_eq!((params[1].start(), params[1].end()), (6, 11));
}

#[test]
fn parameter_empty_name_is_skipped() {
    let params = collect("{=1}{:x}{a}");
    assert_eq!(params.len(), 1);
    assert_eq!(params[0].name(), "a");
}

#[test]
fn parameter_empty_format_and_default_are_absent() {
    let params = collect("{a:=}{b=x=y}");
    assert_eq!(params[0].name(), "a");
    assert_eq!(params[0].format(), None);
    assert_eq!(params[0].default(), None);
    assert_eq!(params[0].name_with_format(), "a:");
    assert_eq!(params[1].name(), "b");
    assert_eq!(params[1].default(), Some("x=y"));
}

#[test]
fn test_replacer_parameters_with_default() {
    let input = "{a}{b=2}{c:.2f=3.0}";
    let replacer = ParameterReplacer::new(input);
    let parameters_with_default = replacer.parameters_with_default();
    assert_eq!(parameters_with_default.len(), 2);
    assert_eq!(parameters_with_default[0].name(), "b");
    assert_eq!(parameters_with_default[0].default(), Some("2"));
    assert_eq!(parameters_with_default[1].name(), "c");
    assert_eq!(parameters_with_default[1].default(), Some("3.0"));
}

#[test]
fn test_replacer_parameters_with_default_complex() {
    let input = "{x}{y=42}{z:.3f=1.234}{w:.2%}{v=hello}{u:.1e=2.71828}";
    let replacer = ParameterReplacer::new(input);
    let parameters_with_default = replacer.parameters_with_default();
    assert_eq!(parameters_with_default.len(), 4);
    assert_eq!(parameters_with_default[0].name(), "y");
    assert_eq!(parameters_with_default[0].default(), Some("42"));
    assert_eq!(parameters_with_default[1].name(), "z");
    assert_eq!(parameters_with_default[1].default(), Some("1.234"));
    assert_eq!(parameters_with_default[2].name(), "v");
    assert_eq!(parameters_with_default[2].default(), Some("hello"));
    assert_eq!(parameters_with_default[3].name(), "u");
    assert_eq!(parameters_with_default[3].default(), Some("2.71828"));
}

#[test]
fn test_replacer_names_with_default_complex() {
    let input = "{x}{y=42}{z:.3f=1.234}{w:.2%}{v=hello}{u:.1e=2.71828}";
    let replacer = ParameterReplacer::new(input);
    let names_with_default = replacer.names_with_default();
    assert_eq!(names_with_default.len(), 4);
    assert_eq!(names_with_default[0], "y");
    assert_eq!(names_with_default[1], "z");
    assert_eq!(names_with_default[2], "v");
    assert_eq!(names_with_default[3], "u");
}

#[test]
fn replacer_parameters_all() {
    let replacer = ParameterReplacer::new("{a}{b=2}{c:.2f=3.0}");
    assert_eq!(replacer.parameters().len(), 3);
}

#[test]
fn test_replacer_two_defaults() {
    let replacer = ParameterReplacer::new("{a}{b=2}{c:.2f=3.0}");
    assert_eq!(replacer.replace("p."), "{a}{p.b}{p.c:.2f}");
}

#[test]
fn test_replacer_prefix_underscore() {
    let replacer = ParameterReplacer::new("{x}{y=42}{z:.3f=1.234}");
    assert_eq!(replacer.replace("prefix_"), "{x}{prefix_y}{prefix_z:.3f}");
}

#[test]
fn test_replacer_trailing_plain() {
    let replacer = ParameterReplacer::new("{a}{b=2}{c:.2f=3.0}{d}");
    assert_eq!(replacer.replace("pre_"), "{a}{pre_b}{pre_c:.2f}{d}");
}

#[test]
fn replacer_keeps_surrounding_text() {
    let replacer = ParameterReplacer::new("x = {a=1} and {{b=2}} ok\n");
    assert_eq!(replacer.replace("q."), "x = {q.a} and {{b=2}} ok\n");
}

#[test]
fn replacer_same_name_without_default_untouched() {
    let replacer = ParameterReplacer::new("{a}{a=1}");
    assert_eq!(replacer.replace("p."), "{a}{p.a}");
}

#[test]
fn replacer_non_ascii() {
    let replacer = ParameterReplacer::new("é{a=ü}ß");
    assert_eq!(replacer.replace("p."), "é{p.a}ß");
}

#[test]
fn positions_are_byte_offsets() {
    let text = "é{a=1}ü{b}";
    let params = collect(text);
    assert_eq!((params[0].start(), params[0].end()), (2, 7));
    assert_eq!((params[1].start(), params[1].end()), (9, 12));
    assert_eq!(&text[params[0].start()..params[0].end()], "{a=1}");
    assert_eq!(&text[params[1].start()..params[1].end()], "{b}");
    let mut it = BraceIterator::new("日本{x}");
    let b = it.next().unwrap();
    assert_eq!((b.start(), b.end()), (6, 9));
}

#[test]
fn parameter_try_from_brace() {
    let mut it = BraceIterator::new("{:x}{n:f=1}");
    let b = it.next().unwrap();
    assert_eq!(Parameter::try_from(&b), Err(ParameterError::EmptyName(":x".to_string())));
    let b = it.next().unwrap();
    let p = Parameter::try_from(&b).unwrap();
    assert_eq!((p.name(), p.format(), p.default()), ("n", Some("f"), Some("1")));
    assert_eq!((p.start(), p.end()), (4, 11));
}
