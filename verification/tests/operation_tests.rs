use api_hierarchy::operation::{
    Operation, OperationCreationError, OperationSource, ParameterInfo, ParameterSource,
};
use api_hierarchy::path::PathSegment;

fn source(tags: &[&str], id: Option<&str>, params: Vec<ParameterSource>) -> OperationSource {
    OperationSource {
        tags: tags.iter().map(|t| t.to_string()).collect(),
        operation_id: id.map(|s| s.to_string()),
        description: Some("Lists groups. All of them.".to_string()),
        parameters: params,
    }
}

fn info(name: &str, desc: Option<&str>) -> ParameterInfo {
    ParameterInfo {
        name: name.to_string(),
        description: desc.map(|d| d.to_string()),
    }
}

#[test]
fn resolves_an_operation_with_inline_parameters() {
    let op = source(
        &[" Groups "],
        Some(" listGroups "),
        vec![ParameterSource::Item(info(" pretty ", Some(" Pretty print. ")))],
    );
    let o = Operation::new(&None, "/api/v1/groups", "get", &op).unwrap();
    assert_eq!(o.tag, "Groups");
    assert_eq!(o.operation_id, "listGroups");
    assert_eq!(o.verb, "get");
    assert_eq!(
        o.path.0,
        vec![
            PathSegment::Constant("api".to_string()),
            PathSegment::Constant("v1".to_string()),
            PathSegment::Constant("groups".to_string()),
        ]
    );
    assert_eq!(o.flags.len(), 1);
    assert_eq!(o.flags[0].name, "pretty");
    assert_eq!(o.flags[0].description, Some("Pretty print.".to_string()));
}

#[test]
fn resolves_a_referenced_parameter() {
    let comps = Some(vec![(
        "envelope".to_string(),
        Some(info("envelope", Some("Wrap the response."))),
    )]);
    let op = source(
        &["Groups"],
        Some("listGroups"),
        vec![ParameterSource::Reference(
            "#/components/parameters/envelope".to_string(),
        )],
    );
    let o = Operation::new(&comps, "/api/v1/groups", "get", &op).unwrap();
    assert_eq!(o.flags.len(), 1);
    assert_eq!(o.flags[0].name, "envelope");
}

#[test]
fn wrong_tag_count_is_rejected() {
    let op = source(&["A", "B"], Some("listGroups"), vec![]);
    let e = Operation::new(&None, "/p", "get", &op).unwrap_err();
    assert_eq!(
        e,
        OperationCreationError::UnexpectedNumberOfTags {
            got: 2,
            path: "/p".to_string(),
            verb: "get".to_string(),
        }
    );
}

#[test]
fn missing_identifier_is_rejected() {
    let op = source(&["Groups"], None, vec![]);
    let e = Operation::new(&None, "/p", "get", &op).unwrap_err();
    assert_eq!(
        e,
        OperationCreationError::OperationIdMissing {
            path: "/p".to_string(),
            verb: "get".to_string(),
        }
    );
}

#[test]
fn empty_path_is_rejected() {
    let op = source(&["Groups"], Some("listGroups"), vec![]);
    let e = Operation::new(&None, "///", "get", &op).unwrap_err();
    assert_eq!(
        e,
        OperationCreationError::EmptyPath {
            operation_id: "listGroups".to_string(),
        }
    );
}

#[test]
fn reference_without_components_is_rejected() {
    let op = source(
        &["Groups"],
        Some("listGroups"),
        vec![ParameterSource::Reference(
            "#/components/parameters/envelope".to_string(),
        )],
    );
    let e = Operation::new(&None, "/p", "get", &op).unwrap_err();
    assert_eq!(e, OperationCreationError::ComponentsAreMissing);
}

#[test]
fn unknown_parameter_reference_is_rejected() {
    let comps = Some(vec![(
        "other".to_string(),
        Some(info("other", None)),
    )]);
    let op = source(
        &["Groups"],
        Some("listGroups"),
        vec![ParameterSource::Reference(
            "#/components/parameters/envelope".to_string(),
        )],
    );
    let e = Operation::new(&comps, "/p", "get", &op).unwrap_err();
    assert_eq!(
        e,
        OperationCreationError::ParameterNotFound {
            parameter_name: "#/components/parameters/envelope".to_string(),
        }
    );
}

#[test]
fn parameter_component_that_is_a_reference_is_rejected() {
    let comps = Some(vec![("envelope".to_string(), None)]);
    let op = source(
        &["Groups"],
        Some("listGroups"),
        vec![ParameterSource::Reference(
            "#/components/parameters/envelope".to_string(),
        )],
    );
    let e = Operation::new(&comps, "/p", "get", &op).unwrap_err();
    assert_eq!(
        e,
        OperationCreationError::ParameterIsAReference {
            parameter_name: "envelope".to_string(),
        }
    );
}
