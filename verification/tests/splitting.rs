use mir_utils::affinity::{collect_affinity_groups, expand, AffinityError, AttrItem, LitKind};
use mir_utils::names::name_with_number;
use mir_utils::split_struct::{AffinityGroup, SplitRegistry, SplitStruct};

fn groups_s() -> Vec<AffinityGroup> {
    vec![
        AffinityGroup { affinity: 1, fields: vec![0, 2] },
        AffinityGroup { affinity: 2, fields: vec![1] },
    ]
}

#[test]
fn child_names_append_the_affinity() {
    assert_eq!(name_with_number(&"S".to_string(), 1), "S1");
    assert_eq!(name_with_number(&"Planet".to_string(), 1234), "Planet1234");
    assert_eq!(name_with_number(&"S".to_string(), 0), "S0");
    assert_eq!(name_with_number(&String::new(), 907), "907");
}

#[test]
fn process_declarations_places_each_field() {
    let (split, children) = SplitStruct::process_declarations("S".to_string(), groups_s());
    assert_eq!(split.name, "S");
    assert_eq!(split.child_names, vec!["S1".to_string(), "S2".to_string()]);
    assert_eq!(split.field_map.len(), 3);
    assert_eq!(split.field_map.get(&0), Some(&("S1".to_string(), 0)));
    assert_eq!(split.field_map.get(&2), Some(&("S1".to_string(), 1)));
    assert_eq!(split.field_map.get(&1), Some(&("S2".to_string(), 0)));
    assert_eq!(children.len(), 2);
    assert_eq!(children[0].name, "S1");
    assert_eq!(children[0].fields, vec![0, 2]);
    assert_eq!(children[1].name, "S2");
    assert_eq!(children[1].fields, vec![1]);
}

#[test]
fn process_declarations_with_no_groups() {
    let (split, children) = SplitStruct::process_declarations("Empty".to_string(), Vec::new());
    assert_eq!(split.name, "Empty");
    assert!(split.child_names.is_empty());
    assert!(split.field_map.is_empty());
    assert!(children.is_empty());
}

#[test]
fn a_field_listed_twice_in_a_group_keeps_the_count_of_distinct_fields() {
    let groups = vec![AffinityGroup { affinity: 3, fields: vec![0, 0, 1] }];
    let (split, _) = SplitStruct::process_declarations("T".to_string(), groups);
    assert_eq!(split.field_map.get(&0), Some(&("T3".to_string(), 1)));
    assert_eq!(split.field_map.get(&1), Some(&("T3".to_string(), 1)));
}

#[test]
fn a_field_in_two_groups_ends_in_the_later() {
    let groups = vec![
        AffinityGroup { affinity: 1, fields: vec![0, 1] },
        AffinityGroup { affinity: 2, fields: vec![1] },
    ];
    let (split, _) = SplitStruct::process_declarations("U".to_string(), groups);
    assert_eq!(split.field_map.get(&0), Some(&("U1".to_string(), 0)));
    assert_eq!(split.field_map.get(&1), Some(&("U2".to_string(), 0)));
}

fn names_abc() -> Vec<String> {
    vec!["a".to_string(), "b".to_string(), "c".to_string()]
}

fn item(field: &str, value: LitKind) -> AttrItem {
    AttrItem::NameValue { field: field.to_string(), value }
}

#[test]
fn attribute_items_group_fields_by_affinity() {
    // #[affinity_groups(a = 1, b = 2, c = 1)]
    let items = vec![
        item("a", LitKind::UnsuffixedInt(1)),
        item("b", LitKind::UnsuffixedInt(2)),
        item("c", LitKind::UnsuffixedInt(1)),
    ];
    let (groups, errors) = collect_affinity_groups(&names_abc(), &items);
    assert!(errors.is_empty());
    assert_eq!(groups.len(), 2);
    assert_eq!(groups[0].affinity, 1);
    assert_eq!(groups[0].fields, vec![0, 2]);
    assert_eq!(groups[1].affinity, 2);
    assert_eq!(groups[1].fields, vec![1]);
}

#[test]
fn attribute_errors_are_reported_in_order() {
    let items = vec![
        item("a", LitKind::Other),
        AttrItem::Other,
        item("zz", LitKind::Other),
        item("b", LitKind::UnsuffixedInt(7)),
    ];
    let (groups, errors) = collect_affinity_groups(&names_abc(), &items);
    assert_eq!(
        errors,
        vec![
            AffinityError::NotUnsuffixedInt(0),
            AffinityError::UnknownField(2),
            AffinityError::NotUnsuffixedInt(2),
        ]
    );
    assert_eq!(groups.len(), 1);
    assert_eq!(groups[0].affinity, 7);
    assert_eq!(groups[0].fields, vec![1]);
}

#[test]
fn error_messages() {
    assert_eq!(
        AffinityError::UnknownField(0).message(),
        "Setting affinity group of struct field that does not exist"
    );
    assert_eq!(
        AffinityError::NotUnsuffixedInt(3).message(),
        "Affinity group must be an unsuffixed integer"
    );
}

#[test]
fn expand_splits_the_struct() {
    let items = vec![
        item("a", LitKind::UnsuffixedInt(1)),
        item("b", LitKind::UnsuffixedInt(2)),
        item("c", LitKind::UnsuffixedInt(1)),
    ];
    let e = expand("S".to_string(), &names_abc(), &items);
    assert!(e.errors.is_empty());
    assert_eq!(e.split.child_names, vec!["S1".to_string(), "S2".to_string()]);
    assert_eq!(e.split.field_map.get(&1), Some(&("S2".to_string(), 0)));
    assert_eq!(e.split.field_map.get(&2), Some(&("S1".to_string(), 1)));
    assert_eq!(e.children[0].fields, vec![0, 2]);
}

#[test]
fn the_first_registration_stays() {
    let mut reg = SplitRegistry::new();
    let (first, _) = SplitStruct::process_declarations("S".to_string(), groups_s());
    reg.register(first);
    let (second, _) = SplitStruct::process_declarations(
        "S".to_string(),
        vec![AffinityGroup { affinity: 9, fields: vec![0] }],
    );
    reg.register(second);
    assert_eq!(reg.structs.len(), 1);
    let found = reg.get(&"S".to_string()).unwrap();
    assert_eq!(found.child_names, vec!["S1".to_string(), "S2".to_string()]);
    assert!(reg.get(&"T".to_string()).is_none());
}
