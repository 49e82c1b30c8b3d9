use inkrypt_vaults::models::VaultRegistry;

fn fresh_id() -> u128 {
    uuid::Uuid::now_v7().as_u128()
}

#[test]
fn test_vault_registry_new() {
    let registry = VaultRegistry::new();
    assert!(registry.vaults.is_empty());
}

#[test]
fn test_vault_registry_insert_and_get() {
    let mut registry = VaultRegistry::new();
    let vault_id = fresh_id();
    let path = "/test/path".to_string();

    registry.insert_vault(vault_id, path.clone());

    assert_eq!(registry.get_vault_path(vault_id), Some(&path));
    assert_eq!(registry.vaults.len(), 1);
}

#[test]
fn test_vault_registry_insert_overwrites() {
    let mut registry = VaultRegistry::new();
    let vault_id = fresh_id();
    let path1 = "/test/path1".to_string();
    let path2 = "/test/path2".to_string();

    registry.insert_vault(vault_id, path1);
    registry.insert_vault(vault_id, path2.clone());

    assert_eq!(registry.get_vault_path(vault_id), Some(&path2));
    assert_eq!(registry.vaults.len(), 1);
}

#[test]
fn test_vault_registry_remove() {
    let mut registry = VaultRegistry::new();
    let vault_id = fresh_id();
    let path = "/test/path".to_string();

    registry.insert_vault(vault_id, path);
    registry.remove_vault(vault_id);

    assert_eq!(registry.get_vault_path(vault_id), None);
    assert!(registry.vaults.is_empty());
}

#[test]
fn test_vault_registry_multiple_vaults() {
    let mut registry = VaultRegistry::new();
    let vault_id1 = fresh_id();
    let vault_id2 = fresh_id();
    let path1 = "/test/path1".to_string();
    let path2 = "/test/path2".to_string();

    registry.insert_vault(vault_id1, path1.clone());
    registry.insert_vault(vault_id2, path2.clone());

    assert_eq!(registry.get_vault_path(vault_id1), Some(&path1));
    assert_eq!(registry.get_vault_path(vault_id2), Some(&path2));
    assert_eq!(registry.vaults.len(), 2);
}
