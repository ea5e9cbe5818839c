use std::sync::Arc;
use tobira_api::context::{Context, TreeStore};
use tobira_api::realm::{RealmRow, Tree, TreeError};

fn row(id: u64, parent: Option<u64>, segment: &str, order_index: i32) -> RealmRow {
    RealmRow {
        id,
        parent,
        name: format!("Realm {}", id),
        path_segment: segment.to_string(),
        order_index,
    }
}

#[test]
fn context_keeps_its_snapshot_across_rebuild() {
    let first = vec![row(1, None, "", 0), row(2, Some(1), "old", 0)];
    let mut store = TreeStore::new(Tree::build(&first).unwrap());
    let before = store.context("pool");
    let second = vec![row(1, None, "", 0), row(3, Some(1), "new", 0), row(4, Some(3), "deep", 0)];
    assert_eq!(store.rebuild(&second), Ok(()));
    assert_eq!(before.realm_tree().len(), 2);
    assert!(before.realm_tree().find_by_id(2).is_some());
    assert!(before.realm_tree().find_by_id(3).is_none());
    let after = store.context("pool");
    assert_eq!(after.realm_tree().len(), 3);
    assert!(after.realm_tree().find_by_id(3).is_some());
    assert_eq!(*before.db(), "pool");
}

#[test]
fn failed_rebuild_keeps_prior_snapshot() {
    let first = vec![row(1, None, "", 0), row(2, Some(1), "a", 0)];
    let mut store = TreeStore::new(Tree::build(&first).unwrap());
    let bad = vec![row(1, None, "", 0), row(2, Some(3), "a", 0), row(3, Some(2), "b", 0)];
    assert_eq!(store.rebuild(&bad), Err(TreeError::Cycle));
    let ctx = store.context(());
    assert_eq!(ctx.realm_tree().len(), 2);
    assert!(ctx.realm_tree().find_by_id(2).is_some());
}

#[test]
fn context_shares_the_given_snapshot() {
    let rows = vec![row(9, None, "", 0)];
    let snapshot = Arc::new(Tree::build(&rows).unwrap());
    let ctx = Context::new(42u32, Arc::clone(&snapshot));
    assert_eq!(*ctx.db(), 42);
    assert_eq!(ctx.realm_tree().id(ctx.realm_tree().root()), 9);
    assert!(std::ptr::eq(ctx.realm_tree(), &*snapshot));
}
