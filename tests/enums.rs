use solhat::enums::Target;

#[test]
fn targets_by_name() {
    assert_eq!(Target::from("moon"), Some(Target::Moon));
    assert_eq!(Target::from("Sun"), Some(Target::Sun));
    assert_eq!(Target::from("SUN"), Some(Target::Sun));
    assert_eq!(Target::from("mars"), None);
    assert_eq!(Target::from(""), None);
    assert_eq!(Target::from_upper("sun"), None);
    assert_eq!(Target::from_upper("MOON"), Some(Target::Moon));
}
