use textconf::dataclasses::{declaration, group_fields, Field, FieldError, FieldList, Kind};
use textconf::params::{ParameterIterator, ParameterReplacer};

#[test]
fn test_kind_from_int() {
    assert_eq!(Kind::from("42"), Kind::Int);
}

#[test]
fn test_kind_from_float() {
    assert_eq!(Kind::from("3.14"), Kind::Float);
    assert_eq!(Kind::from("3.14e-10"), Kind::Float);
}

#[test]
fn test_kind_from_bool_true() {
    assert_eq!(Kind::from("True"), Kind::Bool);
}

#[test]
fn test_kind_from_bool_false() {
    assert_eq!(Kind::from("False"), Kind::Bool);
}

#[test]
fn test_kind_from_list() {
    assert_eq!(Kind::from("[42]"), Kind::List(Box::new(Kind::Int)));
}

#[test]
fn test_kind_from_string() {
    assert_eq!(Kind::from("hello"), Kind::String);
}

#[test]
fn kind_from_bool_any_case() {
    assert_eq!(Kind::from("true"), Kind::Bool);
    assert_eq!(Kind::from("FALSE"), Kind::Bool);
    assert_eq!(Kind::from("tru"), Kind::String);
}

#[test]
fn kind_from_nested_and_edge_lists() {
    assert_eq!(Kind::from("[[1]]"), Kind::List(Box::new(Kind::List(Box::new(Kind::Int)))));
    assert_eq!(Kind::from("[]"), Kind::List(Box::new(Kind::String)));
    assert_eq!(Kind::from("[1.5]"), Kind::List(Box::new(Kind::Float)));
    assert_eq!(Kind::from("["), Kind::String);
    assert_eq!(Kind::from(""), Kind::String);
}

#[test]
fn test_kind_display_int() {
    assert_eq!(Kind::Int.to_string(), "int");
}

#[test]
fn test_kind_display_float() {
    assert_eq!(Kind::Float.to_string(), "float");
}

#[test]
fn test_kind_display_string() {
    assert_eq!(Kind::String.to_string(), "str");
}

#[test]
fn test_kind_display_bool() {
    assert_eq!(Kind::Bool.to_string(), "bool");
}

#[test]
fn test_kind_display_list() {
    assert_eq!(Kind::List(Box::new(Kind::Int)).to_string(), "list[int]");
}

#[test]
fn test_kind_display_class() {
    assert_eq!(Kind::Class("MyClass".to_string()).to_string(), "MyClass");
}

#[test]
fn kind_display_nested_list() {
    let k = Kind::List(Box::new(Kind::List(Box::new(Kind::Bool))));
    assert_eq!(k.to_string(), "list[list[bool]]");
}

#[test]
fn test_field_try_from_parameter() {
    let input = "{a}{b=2}{c:.2f=3.0}";
    let replacer = ParameterReplacer::new(input);
    let params = replacer.parameters_with_default();
    let field = Field::try_from(params[0]).unwrap();
    assert_eq!(field.name(), "b");
    assert_eq!(*field.kind(), Kind::Int);
    assert_eq!(field.default(), "2");
    let field = Field::try_from(params[1]).unwrap();
    assert_eq!(field.name(), "c");
    assert_eq!(*field.kind(), Kind::Float);
    assert_eq!(field.default(), "3.0");
}

#[test]
fn field_try_from_without_default() {
    let mut it = ParameterIterator::new("{a:.2f}");
    let p = it.next().unwrap();
    assert_eq!(Field::try_from(&p), Err(FieldError::EmptyDefault("a:.2f".to_string())));
}

#[test]
fn test_field_list_new() {
    let input = "{a}{b=2}{c.d:.2f=3.0}";
    let source = "{a}{p.b}{p.c.d:.2f}";
    let field_list = FieldList::new(input, "p.").unwrap();
    assert_eq!(field_list.source(), source);
    assert_eq!(field_list.fields().len(), 2);
}

#[test]
fn field_list_fields_in_order() {
    let field_list = FieldList::new("{a}{b=2}{c.d:.2f=3.0}", "p.").unwrap();
    let fields = field_list.fields();
    assert_eq!(fields[0].name(), "b");
    assert_eq!(*fields[0].kind(), Kind::Int);
    assert_eq!(fields[0].default(), "2");
    assert_eq!(fields[1].name(), "c.d");
    assert_eq!(*fields[1].kind(), Kind::Float);
    assert_eq!(fields[1].default(), "3.0");
}

#[test]
fn field_list_empty_text() {
    let field_list = FieldList::new("", "p.").unwrap();
    assert_eq!(field_list.source(), "");
    assert!(field_list.fields().is_empty());
}

fn field(input: &str) -> Field {
    let mut it = ParameterIterator::new(input);
    Field::try_from(&it.next().unwrap()).unwrap()
}

#[test]
fn field_display_int() {
    assert_eq!(field("{age=30}").to_string(), "age: int = 30");
}

#[test]
fn field_display_float() {
    assert_eq!(field("{price=19.99}").to_string(), "price: float = 19.99");
}

#[test]
fn field_display_string() {
    assert_eq!(field("{name=John}").to_string(), "name: str = \"John\"");
}

#[test]
fn field_display_bool() {
    assert_eq!(field("{is_active=True}").to_string(), "is_active: bool = True");
}

#[test]
fn field_remove_prefix() {
    let mut f = field("{user.profile.age=25}");
    let prefix = f.remove_prefix();
    assert_eq!(f.name(), "age");
    assert_eq!(prefix, Some("user.profile".to_string()));
}

#[test]
fn field_remove_prefix_no_prefix() {
    let mut f = field("{age=25}");
    let prefix = f.remove_prefix();
    assert_eq!(f.name(), "age");
    assert_eq!(prefix, None);
}

#[test]
fn record_declaration() {
    let field_list = FieldList::new("{a}{b=2}{c=hi}", "").unwrap();
    assert_eq!(
        declaration("Config", field_list.fields()),
        "@dataclass\nclass Config:\n    b: int = 2\n    c: str = \"hi\"\n"
    );
    assert_eq!(declaration("Empty", &[]), "@dataclass\nclass Empty:\n");
}

#[test]
fn kind_from_parts_decides_in_order() {
    assert_eq!(Kind::from_parts("true", true, true, Kind::Int), Kind::Bool);
    assert_eq!(Kind::from_parts("x", true, true, Kind::Int), Kind::Int);
    assert_eq!(Kind::from_parts("x", false, true, Kind::Int), Kind::Float);
    assert_eq!(Kind::from_parts("[x]", false, false, Kind::Bool), Kind::List(Box::new(Kind::Bool)));
    assert_eq!(Kind::from_parts("x", false, false, Kind::Int), Kind::String);
}

#[test]
fn group_fields_by_dotted_prefix() {
    let list = FieldList::new("{a=1}{user.age=2}{b=x}{user.name=y}{x.y.z=3.5}{c}", "").unwrap();
    let records = group_fields(list.into_fields());
    assert_eq!(records.len(), 3);
    assert_eq!(records[0].name(), None);
    let top: Vec<&str> = records[0].fields().iter().map(|f| f.name()).collect();
    assert_eq!(top, vec!["a", "b"]);
    assert_eq!(records[1].name(), Some("user"));
    assert_eq!(records[1].fields()[0].to_string(), "age: int = 2");
    assert_eq!(records[1].fields()[1].to_string(), "name: str = \"y\"");
    assert_eq!(records[2].name(), Some("x.y"));
    assert_eq!(records[2].fields()[0].to_string(), "z: float = 3.5");
    assert_eq!(
        declaration("user", records[1].fields()),
        "@dataclass\nclass user:\n    age: int = 2\n    name: str = \"y\"\n"
    );
}

#[test]
fn group_fields_empty() {
    assert!(group_fields(Vec::new()).is_empty());
}
