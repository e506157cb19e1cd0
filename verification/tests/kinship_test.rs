use rustygene::kinship::{compute_kinship, PathStep};
use rustygene::types::EntityId;

fn id(n: u128) -> EntityId {
    EntityId(n)
}

#[test]
fn parent_child_relationships() {
    let path = vec![
        PathStep {
            direction: "up".to_string(),
            label: "parent".to_string(),
            person_id: id(1),
        },
    ];

    let result = compute_kinship(&path);
    assert_eq!(result.kinship_name, "parent");
}

#[test]
fn child_relationship() {
    let path = vec![
        PathStep {
            direction: "down".to_string(),
            label: "child".to_string(),
            person_id: id(1),
        },
    ];

    let result = compute_kinship(&path);
    assert_eq!(result.kinship_name, "child");
}

#[test]
fn sibling_relationship() {
    let path = vec![
        PathStep {
            direction: "up".to_string(),
            label: "parent".to_string(),
            person_id: id(1),
        },
        PathStep {
            direction: "down".to_string(),
            label: "child".to_string(),
            person_id: id(2),
        },
    ];

    let result = compute_kinship(&path);
    assert_eq!(result.kinship_name, "sibling");
}

#[test]
fn grandparent_relationship() {
    let path = vec![
        PathStep {
            direction: "up".to_string(),
            label: "parent".to_string(),
            person_id: id(1),
        },
        PathStep {
            direction: "up".to_string(),
            label: "parent".to_string(),
            person_id: id(2),
        },
    ];

    let result = compute_kinship(&path);
    assert_eq!(result.kinship_name, "grandparent");
}

#[test]
fn uncle_or_aunt_relationship() {
    let path = vec![
        PathStep {
            direction: "up".to_string(),
            label: "parent".to_string(),
            person_id: id(1),
        },
        PathStep {
            direction: "up".to_string(),
            label: "parent".to_string(),
            person_id: id(2),
        },
        PathStep {
            direction: "down".to_string(),
            label: "child".to_string(),
            person_id: id(3),
        },
    ];

    let result = compute_kinship(&path);
    assert_eq!(result.kinship_name, "uncle");
}

#[test]
fn cousin_relationship() {
    let path = vec![
        PathStep {
            direction: "up".to_string(),
            label: "parent".to_string(),
            person_id: id(1),
        },
        PathStep {
            direction: "up".to_string(),
            label: "parent".to_string(),
            person_id: id(2),
        },
        PathStep {
            direction: "down".to_string(),
            label: "child".to_string(),
            person_id: id(3),
        },
        PathStep {
            direction: "down".to_string(),
            label: "child".to_string(),
            person_id: id(4),
        },
    ];

    let result = compute_kinship(&path);
    assert_eq!(result.kinship_name, "cousin");
}

#[test]
fn second_cousin_once_removed() {
    let path = vec![
        PathStep {
            direction: "up".to_string(),
            label: "parent".to_string(),
            person_id: id(1),
        },
        PathStep {
            direction: "up".to_string(),
            label: "parent".to_string(),
            person_id: id(2),
        },
        PathStep {
            direction: "up".to_string(),
            label: "parent".to_string(),
            person_id: id(3),
        },
        PathStep {
            direction: "down".to_string(),
            label: "child".to_string(),
            person_id: id(4),
        },
        PathStep {
            direction: "down".to_string(),
            label: "child".to_string(),
            person_id: id(5),
        },
    ];

    let result = compute_kinship(&path);
    assert_eq!(result.kinship_name, "2nd cousin 1 removed");
}

#[test]
fn self_reference() {
    let path = vec![
        PathStep {
            direction: "none".to_string(),
            label: "self".to_string(),
            person_id: id(1),
        },
    ];

    let result = compute_kinship(&path);
    assert_eq!(result.kinship_name, "self");
}

#[test]
fn spouse_step_leaves_kinship_unchanged() {
    let path = vec![
        PathStep {
            direction: "up".to_string(),
            label: "parent".to_string(),
            person_id: id(1),
        },
        PathStep {
            direction: "down".to_string(),
            label: "child".to_string(),
            person_id: id(2),
        },
        PathStep {
            direction: "spouse".to_string(),
            label: "spouse".to_string(),
            person_id: id(3),
        },
    ];

    let result = compute_kinship(&path);
    assert_eq!(result.kinship_name, "sibling");
    assert_eq!(result.common_ancestor_id, Some(id(1)));
}

#[test]
fn great_grandparent_and_distant_cousins() {
    let path = vec![
        PathStep {
            direction: "up".to_string(),
            label: "parent".to_string(),
            person_id: id(1),
        },
        PathStep {
            direction: "up".to_string(),
            label: "parent".to_string(),
            person_id: id(2),
        },
        PathStep {
            direction: "up".to_string(),
            label: "parent".to_string(),
            person_id: id(3),
        },
        PathStep {
            direction: "up".to_string(),
            label: "parent".to_string(),
            person_id: id(4),
        },
    ];

    assert_eq!(compute_kinship(&path).kinship_name, "great-great-grandparent");
    let path2 = vec![
        PathStep {
            direction: "up".to_string(),
            label: "parent".to_string(),
            person_id: id(1),
        },
        PathStep {
            direction: "up".to_string(),
            label: "parent".to_string(),
            person_id: id(1),
        },
        PathStep {
            direction: "up".to_string(),
            label: "parent".to_string(),
            person_id: id(1),
        },
        PathStep {
            direction: "up".to_string(),
            label: "parent".to_string(),
            person_id: id(1),
        },
        PathStep {
            direction: "up".to_string(),
            label: "parent".to_string(),
            person_id: id(1),
        },
        PathStep {
            direction: "down".to_string(),
            label: "child".to_string(),
            person_id: id(6),
        },
        PathStep {
            direction: "down".to_string(),
            label: "child".to_string(),
            person_id: id(6),
        },
        PathStep {
            direction: "down".to_string(),
            label: "child".to_string(),
            person_id: id(6),
        },
        PathStep {
            direction: "down".to_string(),
            label: "child".to_string(),
            person_id: id(6),
        },
        PathStep {
            direction: "down".to_string(),
            label: "child".to_string(),
            person_id: id(6),
        },
    ];
    assert_eq!(compute_kinship(&path2).kinship_name, "5th cousin");
    let path3 = vec![
        PathStep {
            direction: "up".to_string(),
            label: "parent".to_string(),
            person_id: id(1),
        },
        PathStep {
            direction: "up".to_string(),
            label: "parent".to_string(),
            person_id: id(1),
        },
        PathStep {
            direction: "up".to_string(),
            label: "parent".to_string(),
            person_id: id(1),
        },
        PathStep {
            direction: "down".to_string(),
            label: "child".to_string(),
            person_id: id(6),
        },
    ];
    assert_eq!(compute_kinship(&path3).kinship_name, "great-aunt_or_uncle");
}

#[test]
fn empty_path_is_self_with_no_ancestor() {
    let result = compute_kinship(&[]);
    assert_eq!(result.kinship_name, "self");
    assert_eq!(result.common_ancestor_id, None);
    assert!(result.path_labels.is_empty());
}

#[test]
fn lone_sibling_step_counts_one_generation_up() {
    let path = vec![
        PathStep {
            direction: "sibling".to_string(),
            label: "sibling".to_string(),
            person_id: id(7),
        },
    ];

    let result = compute_kinship(&path);
    assert_eq!(result.kinship_name, "parent");
    assert_eq!(result.common_ancestor_id, Some(id(7)));
    assert_eq!(result.path_labels, vec!["sibling".to_string()]);
}
