use textconf::parser::{extract_braces, Variable, Variables};

#[test]
fn extract_braces_simple() {
    assert_eq!(extract_braces("abc{def}ghi{jkl}mno"), vec!["{def}", "{jkl}"]);
}

#[test]
fn extract_braces_nested() {
    assert_eq!(extract_braces("a{b{c}d{e}}f"), vec!["{b{c}d{e}}"]);
}

#[test]
fn extract_braces_empty() {
    for input in ["abc", "a{b{c}d", "a{b{c}d{e}f"] {
        assert_eq!(extract_braces(input), Vec::<&str>::new());
    }
}

#[test]
fn test_extract_braces_unbalanced_close() {
    assert_eq!(extract_braces("a}b{c}d}"), vec!["{c}"]);
}

#[test]
fn extract_braces_unbalanced_mixed() {
    assert_eq!(extract_braces("{a}{b}}c{{d}e"), vec!["{a}", "{b}"]);
}

#[test]
fn extract_braces_sequential_nested() {
    let result = extract_braces("a{{c}}{d{e}}{f{g{h}}}i{{{j}}}");
    assert_eq!(result, vec!["{{c}}", "{d{e}}", "{f{g{h}}}", "{{{j}}}"]);
}

#[test]
fn variable_err() {
    for value in [
        "abc", "{a}", "{{a}}", "{{a=3}}", "{{a}", "{{{a{b}}}}", "{a{b}}", "{a b}", "{=}",
        "{:=1}", "{=1}",
    ] {
        assert!(Variable::try_from(value).is_err(), "{value}");
    }
}

#[test]
fn variable_error_messages() {
    assert_eq!(
        Variable::try_from("{{a=1}}"),
        Err("Invalid input format: mismatched or even number of braces")
    );
    assert_eq!(
        Variable::try_from("{a b=1}"),
        Err("Invalid characters in variable name: contains braces or spaces")
    );
    assert_eq!(
        Variable::try_from("{a=1=2}"),
        Err("Variable format must contain '=' and a non-empty name")
    );
    assert_eq!(Variable::try_from("{:f=1}"), Err("Variable name is empty"));
}

#[test]
fn variable_without_default() {
    for value in ["{a=}", "{a:.2f=}"] {
        let result = Variable::try_from(value).unwrap();
        assert_eq!(result.name, "a".to_string());
        assert_eq!(result.default, None)
    }
}

#[test]
fn variable_with_default() {
    for value in ["{a=1.0}", "{a:.2f=1.0}", "{{{a=1.0}}}"] {
        let result = Variable::try_from(value).unwrap();
        assert_eq!(result.name, "a".to_string());
        assert_eq!(result.default, Some("1.0".to_string()));
    }
}

#[test]
fn variables_empty() {
    for value in ["", "abc", "Hello, {name}"] {
        assert!(Variables::from(value).is_empty());
    }
}

#[test]
fn variables_with_defaults() {
    let variables = Variables::from("{name=John} is {age=30} years old.");
    let mut it = variables.iter();
    assert_eq!(
        it.next(),
        Some(&Variable { name: "name".to_string(), default: Some("John".to_string()) })
    );
    assert_eq!(
        it.next(),
        Some(&Variable { name: "age".to_string(), default: Some("30".to_string()) })
    );
    assert_eq!(it.next(), None);
}

#[test]
fn variables_mixed() {
    let variables =
        Variables::from("Hello, {name=}! Today is {day} and it's {temperature=20} degrees.");
    let mut it = variables.iter();
    assert_eq!(it.next(), Some(&Variable { name: "name".to_string(), default: None }));
    assert_eq!(
        it.next(),
        Some(&Variable { name: "temperature".to_string(), default: Some("20".to_string()) })
    );
    assert_eq!(it.next(), None);
}

#[test]
fn variables_as_slice() {
    let variables = Variables::from("{x=1}{y}");
    assert_eq!(variables.as_slice().len(), 1);
    assert_eq!(variables.as_slice()[0].name, "x");
}
