use tower_cache::Transform;

fn t(v: usize) -> usize {
    v * 2
}

#[test]
fn test_unit() {
    assert_eq!(().transform(2), 2);
}

#[test]
fn test_closure() {
    assert_eq!((|v| v * 2).transform(2), 4);
}

#[test]
fn test_function() {
    assert_eq!(t.transform(2), 4);
}

#[test]
fn unit_transform_keeps_any_value() {
    assert_eq!(().transform(String::from("as is")), String::from("as is"));
    assert_eq!(().transform((1u8, true)), (1u8, true));
}

#[test]
fn closure_transform_projects_the_request() {
    let key_of = |req: (u64, String)| req.0;
    assert_eq!(key_of.transform((42, String::from("payload"))), 42);
}
