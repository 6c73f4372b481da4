use textconf::dataclasses::{FieldList, Kind};
use textconf::params::{BraceIterator, ParameterError, ParameterIterator, ParameterReplacer, Parameters};

fn spans(input: &str) -> Vec<(usize, usize)> {
    let mut it = BraceIterator::new(input);
    let mut v = Vec::new();
    while let Some(b) = it.next() {
        v.push((b.start(), b.end()));
    }
    v
}

#[test]
fn rescanning_gives_the_same_spans() {
    let text = "a{b}{{c}} {d e} {f=1}}{g";
    assert_eq!(spans(text), spans(text));
    assert_eq!(spans(text), vec![(1, 4), (16, 21)]);
    for (s, e) in spans(text) {
        assert_eq!(spans(&text[s..e]), vec![(0, e - s)]);
    }
}

#[test]
fn parse_then_serialize_round_trips() {
    for content in ["name=default", "x=1", "a.b=[1]", "k=v=w"] {
        let placeholder = format!("{{{content}}}");
        let mut it = ParameterIterator::new(&placeholder);
        let p = it.next().unwrap();
        let written = format!("{{{}={}}}", p.name(), p.default().unwrap());
        assert_eq!(written, placeholder);
    }
}

#[test]
fn inference_ignores_sign() {
    assert_eq!(Kind::from("42"), Kind::Int);
    assert_eq!(Kind::from("+42"), Kind::Int);
    assert_eq!(Kind::from("-42"), Kind::Int);
    assert_ne!(Kind::from("+-42"), Kind::Int);
}

#[test]
fn inference_classifies() {
    assert_eq!(Kind::from("42"), Kind::Int);
    assert_eq!(Kind::from("3.14"), Kind::Float);
    assert_eq!(Kind::from("3.14e-10"), Kind::Float);
    assert_eq!(Kind::from("True"), Kind::Bool);
    assert_eq!(Kind::from("False"), Kind::Bool);
    assert_eq!(Kind::from("hello"), Kind::String);
    assert_eq!(Kind::from("[42]"), Kind::List(Box::new(Kind::Int)));
    assert_eq!(Kind::from("[[1]]"), Kind::List(Box::new(Kind::List(Box::new(Kind::Int)))));
}

#[test]
fn strip_defaults_with_prefix() {
    let replacer = ParameterReplacer::new("{a}{b=2}{c:.2f=3.0}");
    assert_eq!(replacer.replace("p."), "{a}{p.b}{p.c:.2f}");
}

#[test]
fn duplicate_names_fail_as_a_batch() {
    match Parameters::try_from("{a=1}{a=2}") {
        Err(ParameterError::DuplicateName(n)) => assert_eq!(n, "a"),
        _ => panic!("duplicate names must be refused"),
    }
    for one in ["{a=1}", "{a=2}"] {
        let ps = Parameters::try_from(one).unwrap();
        assert_eq!(ps.parameters().len(), 1);
        assert_eq!(ps.parameters()[0].name(), "a");
    }
    let ps = Parameters::try_from("{a=1}{b=2}").unwrap();
    assert_eq!(ps.parameters().len(), 2);
}

#[test]
fn strict_batch_refuses_empty_name() {
    match Parameters::try_from("{a=1}{=2}{a=3}") {
        Err(ParameterError::EmptyName(c)) => assert_eq!(c, "=2"),
        _ => panic!("an empty name must be refused"),
    }
}

#[test]
fn escaped_braces_make_no_span() {
    assert!(spans("{{score}}").is_empty());
    let text = "Hello, {name}! Your score is {{score}}.";
    let found = spans(text);
    assert_eq!(found.len(), 1);
    let (s, e) = found[0];
    assert_eq!(&text[s..e], "{name}");
}

#[test]
fn field_list_scenario() {
    let list = FieldList::new("{a}{b=2}{c.d:.2f=3.0}", "p.").unwrap();
    assert_eq!(list.source(), "{a}{p.b}{p.c.d:.2f}");
    let fields = list.fields();
    assert_eq!(fields.len(), 2);
    assert_eq!((fields[0].name(), fields[0].kind(), fields[0].default()), ("b", &Kind::Int, "2"));
    assert_eq!(
        (fields[1].name(), fields[1].kind(), fields[1].default()),
        ("c.d", &Kind::Float, "3.0")
    );
}
