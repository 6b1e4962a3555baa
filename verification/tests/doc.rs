use cortex_fusion::doc::doc_plan;

#[test]
fn a_documentation_build_leaves_out_gpu_backends() {
    let plan = doc_plan(true);
    assert_eq!(plan.device, "flex");
    assert_eq!(plan.excluded, vec!["cortex-cuda".to_string(), "cortex-rocm".to_string()]);
    assert_eq!(plan.all_features_crates, vec!["cortex-dataset".to_string()]);
}

#[test]
fn documentation_tests_document_only_the_workspace() {
    let plan = doc_plan(false);
    assert_eq!(plan.device, "flex");
    assert!(plan.excluded.is_empty());
    assert!(plan.all_features_crates.is_empty());
}
