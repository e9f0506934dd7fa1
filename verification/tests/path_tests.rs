use api_hierarchy::path::{Path, PathSegment};
use std::cmp::Ordering;

#[test]
fn segment_parses_constant_and_parameter() {
    assert_eq!(
        PathSegment::from_str("groups"),
        Some(PathSegment::Constant("groups".to_string()))
    );
    assert_eq!(
        PathSegment::from_str("{groupId}"),
        Some(PathSegment::Id("groupId".to_string()))
    );
    assert_eq!(PathSegment::from_str(""), None);
    // an unmatched brace stays constant text
    assert_eq!(
        PathSegment::from_str("{"),
        Some(PathSegment::Constant("{".to_string()))
    );
    assert_eq!(
        PathSegment::from_str("{}"),
        Some(PathSegment::Id(String::new()))
    );
    assert_eq!(
        PathSegment::from_str_owned("{x}"),
        Some(PathSegment::Id("x".to_string()))
    );
}

#[test]
fn path_parses_and_drops_empty_fragments() {
    let p = Path::from_str("/api/{id}/things").unwrap();
    assert_eq!(
        p.0,
        vec![
            PathSegment::Constant("api".to_string()),
            PathSegment::Id("id".to_string()),
            PathSegment::Constant("things".to_string()),
        ]
    );
    // doubled and trailing slashes leave no segments behind
    let q = Path::from_str("//a//b/").unwrap();
    assert_eq!(
        q.0,
        vec![
            PathSegment::Constant("a".to_string()),
            PathSegment::Constant("b".to_string()),
        ]
    );
}

#[test]
fn empty_template_yields_no_path() {
    assert_eq!(Path::from_str(""), None);
    assert_eq!(Path::from_str("///"), None);
    assert_eq!(Path::from_str_owned("/"), None);
}

#[test]
fn consts_projects_constant_segments_in_order() {
    let p = Path::from_str("/groups/{groupId}/users/{userId}").unwrap();
    assert_eq!(p.consts(), vec!["groups".to_string(), "users".to_string()]);
}

#[test]
fn segments_order_parameters_before_constants() {
    let c1 = PathSegment::Constant("abc".to_string());
    let c2 = PathSegment::Constant("abd".to_string());
    let i1 = PathSegment::Id("zzz".to_string());
    let i2 = PathSegment::Id("aaa".to_string());
    assert_eq!(c1.compare(&c2), Ordering::Less);
    assert_eq!(c2.compare(&c1), Ordering::Greater);
    assert_eq!(i1.compare(&c1), Ordering::Less);
    assert_eq!(c1.compare(&i1), Ordering::Greater);
    assert_eq!(i2.compare(&i1), Ordering::Less);
    assert_eq!(i1.compare(&i1.clone()), Ordering::Equal);
}

#[test]
fn path_renders_back_to_text() {
    let p = Path::from_str("/api/{groupId}/things").unwrap();
    assert_eq!(p.to_text(), "api/groupId/things");
    let single = Path::from_str("groups").unwrap();
    assert_eq!(single.to_text(), "groups");
}

#[test]
fn partial_ord_follows_the_segment_order() {
    assert!(PathSegment::Id("zzz".to_string()) < PathSegment::Constant("aaa".to_string()));
    assert!(PathSegment::Constant("abc".to_string()) < PathSegment::Constant("abd".to_string()));
    assert_eq!(
        PathSegment::Id("a".to_string()).partial_cmp(&PathSegment::Id("a".to_string())),
        Some(Ordering::Equal)
    );
}
