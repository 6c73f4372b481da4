use textconf::types::{float_given, is_float, is_int};

#[test]
fn is_int_cases() {
    for (value, result) in [("", false), ("0", true), ("9", true), ("1.0", false), ("a", false)] {
        assert_eq!(is_int(value), result, "{value}");
        assert_eq!(is_int(format!("+{value}").as_str()), result, "+{value}");
        assert_eq!(is_int(format!("-{value}").as_str()), result, "-{value}");
        assert!(!is_int(format!("+-{value}").as_str()), "+-{value}");
    }
    assert!(is_int("12345678901234567890"));
    assert!(!is_int(" 1"));
}

#[test]
fn is_float_cases() {
    let cases = [
        ("", false),
        (".", false),
        ("0", false),
        ("1.0", true),
        ("1.", true),
        (".1", true),
        ("a", false),
        ("ab", false),
        ("aeb", false),
        ("1e1", true),
        ("1e+1", true),
        ("1e-1", true),
        ("1e++1", false),
        ("1e--1", false),
        ("1e+-1", false),
        ("1e1.1", false),
        ("1.1e1", true),
    ];
    for (value, result) in cases {
        assert_eq!(is_float(value), result, "{value}");
        if result {
            assert!(is_float(format!("+{value}").as_str()), "+{value}");
            assert!(is_float(format!("-{value}").as_str()), "-{value}");
            assert!(is_float(value.to_uppercase().as_str()), "upper {value}");
        }
    }
    assert!(!is_float("1e1e1"));
    assert!(!is_float("é"));
}

#[test]
fn float_given_decides_from_parts() {
    assert!(float_given("1e5", false, true, true));
    assert!(float_given("1E5", false, true, true));
    assert!(!float_given("1e5", false, false, true));
    assert!(!float_given("1e5", false, true, false));
    assert!(!float_given("1e5e5", false, true, true));
    assert!(!float_given("15", false, true, true));
    assert!(float_given("1.5", true, false, false));
    assert!(!float_given("1", true, true, true));
    assert!(!float_given("", true, true, true));
}
