use labello::models::{
    default_keypoint_names, has_invalid_mapping, mapping_enabled, mapping_owner, model_class_label, model_tensor_label,
    remove_invalid_mappings, select_output, toggle_class_mapping, ClassMapping,
};

#[test]
fn tensors_are_named_with_type_and_shape() {
    assert_eq!(
        model_tensor_label("another_output", "float32", &vec![Some(1), Some(6), Some(2100)]),
        "another_output · float32 · [1, 6, 2100]"
    );
    assert_eq!(model_tensor_label("images", "uint8", &vec![None, Some(3)]), "images · uint8 · [?, 3]");
    assert_eq!(model_tensor_label("scalar", "int64", &Vec::new()), "scalar · int64 · []");
}

#[test]
fn classes_are_named_by_id_and_model_name() {
    let names = vec!["person".to_string(), "ball".to_string()];
    assert_eq!(model_class_label(&names, 1), "1 · ball");
    assert_eq!(model_class_label(&names, 7), "7");
}

fn mapping(model_class_id: u32, class_id: u64) -> ClassMapping {
    ClassMapping { model_class_id, class_id }
}

#[test]
fn output_selection_keeps_a_compatible_saved_output_or_the_only_one() {
    let outputs = vec!["boxes".to_string(), "pose".to_string()];
    assert_eq!(select_output(&outputs, &Some("pose".to_string())), Some(1));
    assert_eq!(select_output(&outputs, &Some("gone".to_string())), None);
    assert_eq!(select_output(&outputs, &None), None);
    let single = vec!["boxes".to_string()];
    assert_eq!(select_output(&single, &Some("gone".to_string())), Some(0));
    assert_eq!(select_output(&Vec::new(), &None), None);
}

#[test]
fn toggling_a_mapping_keeps_mappings_in_model_order() {
    let mut m = vec![mapping(3, 10), mapping(1, 11)];
    toggle_class_mapping(&mut m, 2, 12, true);
    assert_eq!(m, vec![mapping(1, 11), mapping(2, 12), mapping(3, 10)]);
    toggle_class_mapping(&mut m, 3, 12, true);
    assert_eq!(m, vec![mapping(1, 11), mapping(2, 12), mapping(3, 12)]);
    toggle_class_mapping(&mut m, 1, 11, false);
    assert_eq!(m, vec![mapping(2, 12), mapping(3, 12)]);
    assert_eq!(mapping_owner(&m, 3), Some(12));
    assert_eq!(mapping_owner(&m, 1), None);
    assert!(mapping_enabled(&m, 3, 12));
    assert!(!mapping_enabled(&m, 3, 10));
    assert!(mapping_enabled(&m, 7, 10));
}

#[test]
fn invalid_mappings_are_found_and_removed() {
    let mut m = vec![mapping(0, 1), mapping(5, 1), mapping(1, 9)];
    let labels = vec![1, 2];
    assert!(has_invalid_mapping(&m, 3, &labels));
    remove_invalid_mappings(&mut m, 3, &labels);
    assert_eq!(m, vec![mapping(0, 1)]);
    assert!(!has_invalid_mapping(&m, 3, &labels));
}

#[test]
fn keypoint_names_default_to_a_matching_skeleton_or_numbers() {
    let skeletons = vec![
        vec!["nose".to_string()],
        vec!["head".to_string(), "tail".to_string()],
    ];
    assert_eq!(default_keypoint_names(&skeletons, 2), vec!["head".to_string(), "tail".to_string()]);
    assert_eq!(
        default_keypoint_names(&skeletons, 3),
        vec!["keypoint_1".to_string(), "keypoint_2".to_string(), "keypoint_3".to_string()]
    );
}
