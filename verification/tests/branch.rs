use hellodb::branch::{Branch, BranchState};

#[test]
fn create_main_branch() {
    let main = Branch::main("ainp.commerce".into());
    assert_eq!(main.id, "ainp.commerce/main");
    assert_eq!(main.namespace, "ainp.commerce");
    assert!(main.parent.is_none());
    assert_eq!(main.state, BranchState::Active);
    assert_eq!(main.label, "main");
}

#[test]
fn create_child_branch() {
    let main = Branch::main("test".into());
    let child = Branch::new(
        "test/draft-1".into(),
        "test".into(),
        main.id.clone(),
        "draft-1".into(),
    );
    assert_eq!(child.parent.as_ref().unwrap(), &main.id);
    assert_eq!(child.state, BranchState::Active);
}

#[test]
fn add_changes() {
    let mut branch = Branch::main("test".into());
    assert!(!branch.has_changes());

    branch.add_change("rec-001".into());
    branch.add_change("rec-002".into());
    assert!(branch.has_changes());
    assert_eq!(branch.changes.len(), 2);
    assert_eq!(branch.changes.get("rec-001"), Some(&true));
}

#[test]
fn add_deletion() {
    let mut branch = Branch::main("test".into());
    branch.add_deletion("rec-003".into());
    assert_eq!(branch.changes.get("rec-003"), Some(&false));
}

#[test]
fn fast_forward_merge_no_conflicts() {
    let target = Branch::main("test".into());
    let mut source = Branch::new(
        "test/feature".into(),
        "test".into(),
        target.id.clone(),
        "feature".into(),
    );
    source.add_change("rec-001".into());
    source.add_change("rec-002".into());

    let result = source.fast_forward_merge(&target).unwrap();
    assert_eq!(result.merged_records.len(), 2);
    assert!(result.conflicts.is_empty());
}

#[test]
fn fast_forward_merge_with_conflicts() {
    let mut target = Branch::main("test".into());
    target.add_change("rec-001".into());

    let mut source = Branch::new(
        "test/feature".into(),
        "test".into(),
        target.id.clone(),
        "feature".into(),
    );
    source.add_change("rec-001".into());
    source.add_change("rec-002".into());

    let result = source.fast_forward_merge(&target).unwrap();
    assert_eq!(result.merged_records.len(), 1);
    assert_eq!(result.conflicts.len(), 1);
    assert_eq!(result.conflicts[0].record_id, "rec-001");
}

#[test]
fn mark_merged_state() {
    let mut branch = Branch::main("test".into());
    branch.mark_merged();
    assert_eq!(branch.state, BranchState::Merged);
}

#[test]
fn mark_abandoned_state() {
    let mut branch = Branch::main("test".into());
    branch.mark_abandoned();
    assert_eq!(branch.state, BranchState::Abandoned);
}

#[test]
fn inactive_branch_cannot_merge() {
    let target = Branch::main("test".into());
    let mut source = Branch::new(
        "test/feature".into(),
        "test".into(),
        target.id.clone(),
        "feature".into(),
    );
    source.mark_abandoned();
    assert!(source.fast_forward_merge(&target).is_err());
}

#[test]
fn merge_keeps_change_order_and_describes_conflicts() {
    let mut target = Branch::main("ns".into());
    target.add_change("b".into());
    let mut source = Branch::new("ns/f".into(), "ns".into(), target.id.clone(), "f".into());
    source.add_change("a".into());
    source.add_deletion("b".into());
    source.add_change("c".into());
    let result = source.fast_forward_merge(&target).unwrap();
    assert_eq!(result.merged_records, vec!["a".to_string(), "c".to_string()]);
    assert_eq!(result.conflicts.len(), 1);
    assert_eq!(result.conflicts[0].description, "record b modified on both ns/f and ns/main");
}

#[test]
fn re_adding_a_change_overwrites_the_flag() {
    let mut branch = Branch::main("ns".into());
    branch.add_change("r".into());
    branch.add_deletion("r".into());
    assert_eq!(branch.changes.len(), 1);
    assert_eq!(branch.changes.get("r"), Some(&false));
}
