use inkrypt_vaults::fs_model::FileData;
use inkrypt_vaults::fs_model::FsTree;
use inkrypt_vaults::manager::VaultManager;
use inkrypt_vaults::models::RegEntry;
use inkrypt_vaults::models::VaultMetadata;

fn setup_test_environment() -> (VaultManager, FsTree) {
    (VaultManager::new(), FsTree::new(1_000))
}

#[test]
fn test_vault_lifecycle() {
    let (mut manager, mut fs) = setup_test_environment();

    let vault = manager.create_vault(&mut fs, "/base", "lifecycle_test").unwrap();
    assert_eq!(vault.name, "lifecycle_test");
    assert!(fs.contains_path(&vault.path));

    let vaults = manager.list_vaults(&fs).unwrap();
    assert_eq!(vaults.len(), 1);
    assert_eq!(vaults[0].id, vault.id);

    let opened_vault = manager.open_vault(&fs, &vault.path).unwrap();
    assert_eq!(opened_vault.id, vault.id);

    let renamed_vault = manager.rename_vault(&mut fs, vault.id, "renamed_vault").unwrap();
    assert_eq!(renamed_vault.name, "renamed_vault");
    assert_ne!(renamed_vault.path, vault.path);

    manager.delete_vault(&mut fs, vault.id).unwrap();
    let vaults_after_delete = manager.list_vaults(&fs).unwrap();
    assert!(vaults_after_delete.is_empty());
    assert!(!fs.contains_path(&renamed_vault.path));
}

#[test]
fn test_entry_operations() {
    let (mut manager, mut fs) = setup_test_environment();

    let vault = manager.create_vault(&mut fs, "/base", "entry_test").unwrap();

    manager.create_directory(&mut fs, vault.id, "test_directory").unwrap();
    manager.create_note(&mut fs, vault.id, "test_note.md").unwrap();
    manager.create_note(&mut fs, vault.id, "test_directory/sub_note.md").unwrap();

    let entries = manager.list_entries(&fs, vault.id, None).unwrap();
    assert_eq!(entries.len(), 2);

    let directory_entries = manager.list_entries(&fs, vault.id, Some("test_directory")).unwrap();
    assert_eq!(directory_entries.len(), 1);

    let content = "# Test Content\n\nThis is a test.";
    manager.edit_note(&mut fs, vault.id, "test_note.md", content).unwrap();
    let read_content = manager.read_note(&fs, vault.id, "test_note.md").unwrap();
    assert_eq!(read_content, content);

    manager.rename_entry(&mut fs, vault.id, "test_note.md", "renamed_note.md").unwrap();
    assert!(fs.contains_path(&format!("{}/renamed_note.md", vault.path)));
    assert!(!fs.contains_path(&format!("{}/test_note.md", vault.path)));

    manager.delete_entry(&mut fs, vault.id, "renamed_note.md").unwrap();
    assert!(!fs.contains_path(&format!("{}/renamed_note.md", vault.path)));

    manager.delete_entry(&mut fs, vault.id, "test_directory").unwrap();
    assert!(!fs.contains_path(&format!("{}/test_directory", vault.path)));
    assert!(!fs.contains_path(&format!("{}/test_directory/sub_note.md", vault.path)));
}

#[test]
fn test_vault_registry_persistence() {
    let mut fs = FsTree::new(1_000);

    // First manager instance: create a vault and hand the persisted rows on,
    // as the host would by writing them to the registry file.
    let persisted: Vec<RegEntry> = {
        let mut manager = VaultManager::new();
        let vault = manager.create_vault(&mut fs, "/base", "persistence_test").unwrap();

        let vaults = manager.list_vaults(&fs).unwrap();
        assert_eq!(vaults.len(), 1);
        assert_eq!(vaults[0].id, vault.id);

        manager
            .persisted_registry()
            .vaults
            .iter()
            .map(|e| RegEntry { id: e.id, path: e.path.clone() })
            .collect()
    };
    assert_eq!(persisted.len(), 1);

    // Second manager instance, as after an application restart.
    {
        let manager = VaultManager::with_entries(persisted);

        let vaults = manager.list_vaults(&fs).unwrap();
        assert_eq!(vaults.len(), 1);
        assert_eq!(vaults[0].name, "persistence_test");
    }
}

#[test]
fn test_error_handling() {
    let (mut manager, mut fs) = setup_test_environment();

    let fake_id = uuid::Uuid::now_v7().as_u128();

    let result = manager.create_directory(&mut fs, fake_id, "test");
    assert!(result.is_err());

    let result = manager.create_note(&mut fs, fake_id, "test.md");
    assert!(result.is_err());

    let result = manager.read_note(&fs, fake_id, "test.md");
    assert!(result.is_err());

    let result = manager.delete_entry(&mut fs, fake_id, "test");
    assert!(result.is_err());

    let result = manager.open_vault(&fs, "/base/invalid");
    assert!(result.is_err());

    let vault = manager.create_vault(&mut fs, "/base", "error_test").unwrap();
    let result = manager.read_note(&fs, vault.id, "nonexistent.md");
    assert!(result.is_err());
}

#[test]
fn test_nested_directories() {
    let (mut manager, mut fs) = setup_test_environment();
    let vault = manager.create_vault(&mut fs, "/base", "nested_test").unwrap();

    manager.create_directory(&mut fs, vault.id, "level1").unwrap();
    manager.create_directory(&mut fs, vault.id, "level1/level2").unwrap();
    manager.create_directory(&mut fs, vault.id, "level1/level2/level3").unwrap();

    manager.create_note(&mut fs, vault.id, "root.md").unwrap();
    manager.create_note(&mut fs, vault.id, "level1/note1.md").unwrap();
    manager.create_note(&mut fs, vault.id, "level1/level2/note2.md").unwrap();
    manager.create_note(&mut fs, vault.id, "level1/level2/level3/note3.md").unwrap();

    let root_entries = manager.list_entries(&fs, vault.id, None).unwrap();
    assert_eq!(root_entries.len(), 2);

    let level1_entries = manager.list_entries(&fs, vault.id, Some("level1")).unwrap();
    assert_eq!(level1_entries.len(), 2);

    let level2_entries = manager.list_entries(&fs, vault.id, Some("level1/level2")).unwrap();
    assert_eq!(level2_entries.len(), 2);

    let level3_entries = manager
        .list_entries(&fs, vault.id, Some("level1/level2/level3"))
        .unwrap();
    assert_eq!(level3_entries.len(), 1);

    let content = "Deep nested content";
    manager
        .edit_note(&mut fs, vault.id, "level1/level2/level3/note3.md", content)
        .unwrap();
    let read_content = manager
        .read_note(&fs, vault.id, "level1/level2/level3/note3.md")
        .unwrap();
    assert_eq!(read_content, content);
}

#[test]
fn test_list_vaults_skips_missing_and_mismatched() {
    let (mut manager, mut fs) = setup_test_environment();

    let kept = manager.create_vault(&mut fs, "/base", "kept").unwrap();
    let gone = manager.create_vault(&mut fs, "/base", "gone").unwrap();
    let swapped = manager.create_vault(&mut fs, "/base", "swapped").unwrap();

    // One vault's directory disappears behind the registry's back.
    fs.remove_subtree(&gone.path);

    // Another vault's metadata is replaced with a different identity.
    let foreign = VaultMetadata { id: uuid::Uuid::now_v7().as_u128(), version: 0, created_at: 0 };
    fs.write_file(&format!("{}/.inkrypt/vault.json", swapped.path), FileData::Meta(foreign))
        .unwrap();

    // The listing neither fails nor shows the missing or mismatched vaults.
    let vaults = manager.list_vaults(&fs).unwrap();
    assert_eq!(vaults.len(), 1);
    assert_eq!(vaults[0].id, kept.id);
}

#[test]
fn test_delete_directory_removes_descendants_from_listings() {
    let (mut manager, mut fs) = setup_test_environment();
    let vault = manager.create_vault(&mut fs, "/base", "sweep_test").unwrap();

    manager.create_directory(&mut fs, vault.id, "docs").unwrap();
    manager.create_note(&mut fs, vault.id, "docs/a.md").unwrap();
    manager.create_note(&mut fs, vault.id, "docs/deep/b.md").unwrap();

    assert_eq!(manager.list_entries(&fs, vault.id, Some("docs")).unwrap().len(), 2);

    manager.delete_entry(&mut fs, vault.id, "docs").unwrap();

    // The directory itself is gone from the root listing, and listing the
    // removed directory (now absent) fails rather than showing stale rows.
    let root_entries = manager.list_entries(&fs, vault.id, None).unwrap();
    assert!(root_entries.iter().all(|e| e.name != "docs"));
    assert!(manager.list_entries(&fs, vault.id, Some("docs")).is_err());
    assert!(!fs.contains_path(&format!("{}/docs/deep/b.md", vault.path)));
}
