use textconf::path::{split_accumulate, SplitAccumulate};

#[test]
fn split_accumulate_cases() {
    assert_eq!(split_accumulate("user.profile.age", '.'), vec!["user", "user.profile", "user.profile.age"]);
    assert_eq!(split_accumulate("a.b.c.d", '.'), vec!["a", "a.b", "a.b.c", "a.b.c.d"]);
    assert_eq!(split_accumulate("", '.'), vec![""]);
    assert_eq!(split_accumulate(".", '.'), vec!["", ""]);
    assert_eq!(split_accumulate(".a", '.'), vec!["", "a"]);
}

#[test]
fn split_accumulate_step_by_step() {
    let mut it = SplitAccumulate::new("a,b,c", ',');
    assert_eq!(it.next(), Some("a".to_string()));
    assert_eq!(it.next(), Some("a,b".to_string()));
    assert_eq!(it.next(), Some("a,b,c".to_string()));
    assert_eq!(it.next(), None);
    assert_eq!(it.next(), None);
}
