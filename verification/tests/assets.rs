use cutflow::production::asset::{AssetError, AssetPool};
use cutflow::production::workflow::WorkflowType;

#[test]
fn added_assets_read_back() {
    let mut pool = AssetPool::new();
    let bg = pool.add_asset(WorkflowType::Layout, "background".to_string());
    let fg = pool.add_asset(WorkflowType::Painting, "foreground".to_string());
    assert_ne!(bg, fg);
    assert_eq!(pool.asset(bg).unwrap().name(), "background");
    assert_eq!(pool.asset(bg).unwrap().workflow_type(), WorkflowType::Layout);
    assert_eq!(pool.asset(fg).unwrap().name(), "foreground");
    assert_eq!(pool.asset(fg).unwrap().workflow_type(), WorkflowType::Painting);
}

#[test]
fn an_asset_is_renamed_in_place() {
    let mut pool = AssetPool::default();
    let k = pool.add_asset(WorkflowType::KeyAnimation, "draft".to_string());
    pool.asset_mut(k).unwrap().set_name("final");
    assert_eq!(pool.asset(k).unwrap().name(), "final");
    assert_eq!(pool.asset(k).unwrap().workflow_type(), WorkflowType::KeyAnimation);
}

#[test]
fn a_deleted_asset_is_gone() {
    let mut pool = AssetPool::new();
    let k = pool.add_asset(WorkflowType::InBetween, "x".to_string());
    let other = pool.add_asset(WorkflowType::InBetween, "y".to_string());
    assert_eq!(pool.delete_asset(k), Ok(()));
    assert!(matches!(pool.asset(k), Err(AssetError::NotFound)));
    assert!(matches!(pool.asset_mut(k), Err(AssetError::NotFound)));
    assert_eq!(pool.delete_asset(k), Err(AssetError::NotFound));
    assert_eq!(pool.asset(other).unwrap().name(), "y");
    let again = pool.add_asset(WorkflowType::InBetween, "x".to_string());
    assert_ne!(again, k);
}

#[test]
fn asset_errors_have_messages() {
    assert_eq!(AssetError::NotFound.message(), "asset not found");
    assert_eq!(AssetError::InUse.message(), "asset is in use");
}
