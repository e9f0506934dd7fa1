use api_hierarchy::hierarchy::{ApiSpec, Hierarchy, HierarchyEntry, HierarchyError, PathOperations};

fn spec_path(template: &str, ops: &[&str]) -> PathOperations {
    PathOperations {
        template: template.to_string(),
        operation_ids: ops.iter().map(|o| Some(o.to_string())).collect(),
    }
}

fn verbs_of(e: &HierarchyEntry) -> Vec<(String, String)> {
    e.verbs.clone()
}

#[test]
fn single_resource_with_two_operations() {
    // prefix /api/v1/, paths /api/v1/groups (listGroups) and
    // /api/v1/groups/{id} (getGroup): one top-level entry keyed
    // "groups", no children, both verbs resolved.
    let spec = ApiSpec {
        paths: vec![
            spec_path("/api/v1/groups", &["listGroups"]),
            spec_path("/api/v1/groups/{id}", &["getGroup"]),
        ],
    };
    let h = Hierarchy::from_openapi_spec("/api/v1/", &spec).unwrap();
    assert_eq!(h.entries.len(), 1);
    let (key, entry) = &h.entries[0];
    assert_eq!(key, "groups");
    assert_eq!(entry.entity_name, Some("Group".to_string()));
    assert!(entry.entries.is_empty());
    assert_eq!(
        verbs_of(entry),
        vec![
            ("get".to_string(), "getGroup".to_string()),
            ("list".to_string(), "listGroups".to_string()),
        ]
    );
}

#[test]
fn sibling_entries_with_equal_entity_collapse() {
    // two branches under "groups" whose operations resolve the same
    // entity name "Member": they merge into one entry carrying both
    // verbs, keyed by the first sibling's segment.
    let spec = ApiSpec {
        paths: vec![
            spec_path("/api/v1/groups/{id}/members", &["addMember"]),
            spec_path("/api/v1/groups/{id}/people", &["getMember"]),
        ],
    };
    let h = Hierarchy::from_openapi_spec("/api/v1/", &spec).unwrap();
    assert_eq!(h.entries.len(), 1);
    let (key, groups) = &h.entries[0];
    assert_eq!(key, "groups");
    assert_eq!(groups.entity_name, None);
    assert!(groups.verbs.is_empty());
    assert_eq!(groups.entries.len(), 1);
    let (ckey, merged) = &groups.entries[0];
    assert_eq!(ckey, "members");
    assert_eq!(merged.entity_name, Some("Member".to_string()));
    assert_eq!(
        verbs_of(merged),
        vec![
            ("add".to_string(), "addMember".to_string()),
            ("get".to_string(), "getMember".to_string()),
        ]
    );
}

#[test]
fn path_outside_prefix_contributes_nothing() {
    let spec = ApiSpec {
        paths: vec![
            spec_path("/other/thing", &["listThings"]),
            spec_path("/api/v2/groups", &["listGroups"]),
        ],
    };
    let h = Hierarchy::from_openapi_spec("/api/v1/", &spec).unwrap();
    assert!(h.entries.is_empty());
}

#[test]
fn verb_collision_fails_the_build() {
    // two sibling branches that merge (both resolve no entity name) and
    // whose children under the same segment both claim the verb "add"
    // with different identifiers: the build fails, no partial result.
    let spec = ApiSpec {
        paths: vec![
            spec_path("/api/v1/a/groups/members", &["addMember"]),
            spec_path("/api/v1/a/orgs/members", &["addMembers"]),
        ],
    };
    let res = Hierarchy::from_openapi_spec("/api/v1/", &spec);
    assert_eq!(res, Err(HierarchyError::VerbCollision));
}

#[test]
fn singularization_feeds_verb_discovery() {
    // "createUsers" seeds the entity "User" only through real
    // singularization; "fetchUser" then yields the derived verb
    // "fetch". Were singularization the identity, no "fetch" verb would
    // exist and the entity would stay plural.
    let spec = ApiSpec {
        paths: vec![spec_path("/api/v1/users", &["createUsers", "fetchUser"])],
    };
    let h = Hierarchy::from_openapi_spec("/api/v1/", &spec).unwrap();
    assert_eq!(h.entries.len(), 1);
    let (key, users) = &h.entries[0];
    assert_eq!(key, "users");
    assert_eq!(users.entity_name, Some("User".to_string()));
    assert_eq!(
        verbs_of(users),
        vec![
            ("create".to_string(), "createUsers".to_string()),
            ("fetch".to_string(), "fetchUser".to_string()),
        ]
    );
}

#[test]
fn building_twice_yields_identical_hierarchies() {
    let spec = ApiSpec {
        paths: vec![
            spec_path("/api/v1/zebras", &["listZebras"]),
            spec_path("/api/v1/apples", &["listApples", "createApple"]),
            spec_path("/api/v1/apples/{id}", &["getApple"]),
        ],
    };
    let h1 = Hierarchy::from_openapi_spec("/api/v1/", &spec).unwrap();
    let h2 = Hierarchy::from_openapi_spec("/api/v1/", &spec).unwrap();
    assert_eq!(h1, h2);
}

#[test]
fn traversal_order_is_alphabetical() {
    // listed out of order in the spec, stored alphabetically
    let spec = ApiSpec {
        paths: vec![
            spec_path("/api/v1/zebras", &["listZebras"]),
            spec_path("/api/v1/apples", &["listApples"]),
            spec_path("/api/v1/mangos", &["listMangos"]),
        ],
    };
    let h = Hierarchy::from_openapi_spec("/api/v1/", &spec).unwrap();
    let keys: Vec<&str> = h.entries.iter().map(|(k, _)| k.as_str()).collect();
    assert_eq!(keys, vec!["apples", "mangos", "zebras"]);
}

#[test]
fn operations_without_identifier_are_dropped() {
    let spec = ApiSpec {
        paths: vec![PathOperations {
            template: "/api/v1/things".to_string(),
            operation_ids: vec![None, Some("listThings".to_string()), None],
        }],
    };
    let h = Hierarchy::from_openapi_spec("/api/v1/", &spec).unwrap();
    assert_eq!(h.entries.len(), 1);
    assert_eq!(
        h.entries[0].1.verbs,
        vec![("list".to_string(), "listThings".to_string())]
    );
}

fn leaf(entity: &str, verbs: &[(&str, &str)]) -> HierarchyEntry {
    HierarchyEntry {
        entity_name: Some(entity.to_string()),
        entries: Vec::new(),
        verbs: verbs
            .iter()
            .map(|(k, v)| (k.to_string(), v.to_string()))
            .collect(),
    }
}

#[test]
fn merge_is_commutative_on_content() {
    // equal entity names, disjoint verb maps: merging either way gives
    // the same verb map and child map
    let mut ab = leaf("Member", &[("add", "addMember")]);
    ab.merge(leaf("Member", &[("get", "getMember")])).unwrap();
    let mut ba = leaf("Member", &[("get", "getMember")]);
    ba.merge(leaf("Member", &[("add", "addMember")])).unwrap();
    assert_eq!(ab.verbs, ba.verbs);
    assert_eq!(ab.entries, ba.entries);
}

#[test]
fn merge_rejects_a_shared_verb() {
    let a = leaf("Member", &[("add", "addMember")]);
    let b = leaf("Member", &[("add", "addOtherMember")]);
    let mut ab = a;
    assert_eq!(ab.merge(b), Err(HierarchyError::VerbCollision));
}

#[test]
fn two_identifiers_claiming_one_verb_at_a_node_are_an_error() {
    // "addMember" and "addMembers" both claim the verb "add" at one
    // node: ambiguous input, the build fails with a collision
    let spec = ApiSpec {
        paths: vec![spec_path("/api/v1/members", &["addMember", "addMembers"])],
    };
    let res = Hierarchy::from_openapi_spec("/api/v1/", &spec);
    assert_eq!(res, Err(HierarchyError::VerbCollision));
}

#[test]
fn non_ascii_remainders_skip_singularization() {
    // the singularizer accepts ASCII words only; a non-ASCII remainder
    // is kept as its own best-effort singular, and nothing panics
    let spec = ApiSpec {
        paths: vec![spec_path("/api/v1/things", &["getUebersichten"]), // ASCII control
                    spec_path("/api/v1/others", &["listB\u{e4}der"])],
    };
    let h = Hierarchy::from_openapi_spec("/api/v1/", &spec).unwrap();
    assert_eq!(h.entries.len(), 2);
    let (key, others) = &h.entries[0];
    assert_eq!(key, "others");
    assert_eq!(others.entity_name, Some("B\u{e4}der".to_string()));
    assert_eq!(
        others.verbs,
        vec![("list".to_string(), "listB\u{e4}der".to_string())]
    );
}

#[test]
fn failed_merge_leaves_the_target_unchanged() {
    // all or nothing: after a collision the target entry is exactly
    // what it was
    let mut target = leaf("Member", &[("add", "addMember"), ("get", "getMember")]);
    let res = target.merge(leaf("Member", &[("add", "addOtherMember")]));
    assert_eq!(res, Err(HierarchyError::VerbCollision));
    assert_eq!(target, leaf("Member", &[("add", "addMember"), ("get", "getMember")]));
}

#[test]
fn empty_spec_yields_an_empty_hierarchy() {
    let spec = ApiSpec { paths: Vec::new() };
    let h = Hierarchy::from_openapi_spec("/api/v1/", &spec).unwrap();
    assert!(h.entries.is_empty());
}
