use inkrypt_vaults::fs_model::FsTree;
use inkrypt_vaults::manager::VaultManager;
use inkrypt_vaults::models::EntryType;
use inkrypt_vaults::models::VaultError;

fn setup_test_manager() -> (VaultManager, FsTree) {
    (VaultManager::new(), FsTree::new(1_000))
}

#[test]
fn test_create_vault() {
    let (mut manager, mut fs) = setup_test_manager();
    let vault_name = "test_vault";

    let result = manager.create_vault(&mut fs, "/base", vault_name);
    assert!(result.is_ok());

    let vault = result.unwrap();
    assert_eq!(vault.name, vault_name);
    assert!(fs.contains_path(&vault.path));
    assert!(fs.dir_exists(&format!("{}/.inkrypt", vault.path)));
    assert!(fs.file_exists(&format!("{}/.inkrypt/vault.json", vault.path)));
}

#[test]
fn test_create_vault_duplicate_name() {
    let (mut manager, mut fs) = setup_test_manager();
    let vault_name = "test_vault";

    let result1 = manager.create_vault(&mut fs, "/base", vault_name);
    assert!(result1.is_ok());

    let result2 = manager.create_vault(&mut fs, "/base", vault_name);
    assert!(result2.is_err());
    assert!(result2
        .unwrap_err()
        .message()
        .contains("directory with this name already exists"));
}

#[test]
fn test_open_vault() {
    let (mut manager, mut fs) = setup_test_manager();
    let vault_name = "test_vault";

    let created_vault = manager.create_vault(&mut fs, "/base", vault_name).unwrap();

    let result = manager.open_vault(&fs, &created_vault.path);
    assert!(result.is_ok());

    let opened_vault = result.unwrap();
    assert_eq!(opened_vault.id, created_vault.id);
    assert_eq!(opened_vault.name, created_vault.name);
    assert_eq!(opened_vault.path, created_vault.path);
}

#[test]
fn test_open_invalid_vault() {
    let (mut manager, fs) = setup_test_manager();

    let result = manager.open_vault(&fs, "/base/nonexistent");
    assert!(result.is_err());
    assert!(result
        .unwrap_err()
        .message()
        .contains("vault.json not found"));
}

#[test]
fn test_list_vaults() {
    let (mut manager, mut fs) = setup_test_manager();

    let vaults = manager.list_vaults(&fs).unwrap();
    assert!(vaults.is_empty());

    let vault1 = manager.create_vault(&mut fs, "/base", "vault1").unwrap();
    let vault2 = manager.create_vault(&mut fs, "/base", "vault2").unwrap();

    let vaults = manager.list_vaults(&fs).unwrap();
    assert_eq!(vaults.len(), 2);

    let vault_ids: Vec<u128> = vaults.iter().map(|v| v.id).collect();
    assert!(vault_ids.contains(&vault1.id));
    assert!(vault_ids.contains(&vault2.id));
}

#[test]
fn test_delete_vault() {
    let (mut manager, mut fs) = setup_test_manager();
    let vault = manager.create_vault(&mut fs, "/base", "test_vault").unwrap();

    assert!(fs.contains_path(&vault.path));

    let result = manager.delete_vault(&mut fs, vault.id);
    assert!(result.is_ok());
    assert!(!fs.contains_path(&vault.path));

    let vaults = manager.list_vaults(&fs).unwrap();
    assert!(vaults.is_empty());
}

#[test]
fn test_rename_vault() {
    let (mut manager, mut fs) = setup_test_manager();
    let vault = manager.create_vault(&mut fs, "/base", "old_name").unwrap();
    let old_path = vault.path.clone();

    let result = manager.rename_vault(&mut fs, vault.id, "new_name");
    assert!(result.is_ok());

    let renamed_vault = result.unwrap();
    assert_eq!(renamed_vault.name, "new_name");
    assert_eq!(renamed_vault.id, vault.id);
    assert_eq!(renamed_vault.created_at, vault.created_at);
    assert!(!fs.contains_path(&old_path));
    assert!(fs.contains_path(&renamed_vault.path));
    assert!(renamed_vault.path.ends_with("/new_name"));
}

#[test]
fn test_create_directory() {
    let (mut manager, mut fs) = setup_test_manager();
    let vault = manager.create_vault(&mut fs, "/base", "test_vault").unwrap();

    let result = manager.create_directory(&mut fs, vault.id, "test_directory");
    assert!(result.is_ok());

    let directory_path = format!("{}/test_directory", vault.path);
    assert!(fs.contains_path(&directory_path));
    assert!(fs.dir_exists(&directory_path));
}

#[test]
fn test_create_note() {
    let (mut manager, mut fs) = setup_test_manager();
    let vault = manager.create_vault(&mut fs, "/base", "test_vault").unwrap();

    let result = manager.create_note(&mut fs, vault.id, "test_note.md");
    assert!(result.is_ok());

    let note_path = format!("{}/test_note.md", vault.path);
    assert!(fs.contains_path(&note_path));
    assert!(fs.file_exists(&note_path));
}

#[test]
fn test_edit_and_read_note() {
    let (mut manager, mut fs) = setup_test_manager();
    let vault = manager.create_vault(&mut fs, "/base", "test_vault").unwrap();

    let note_content = "# Test Note\n\nThis is a test note.";

    manager.create_note(&mut fs, vault.id, "test_note.md").unwrap();
    let edit_result = manager.edit_note(&mut fs, vault.id, "test_note.md", note_content);
    assert!(edit_result.is_ok());

    let read_result = manager.read_note(&fs, vault.id, "test_note.md");
    assert!(read_result.is_ok());
    assert_eq!(read_result.unwrap(), note_content);
}

#[test]
fn test_delete_entry() {
    let (mut manager, mut fs) = setup_test_manager();
    let vault = manager.create_vault(&mut fs, "/base", "test_vault").unwrap();

    manager.create_note(&mut fs, vault.id, "test_note.md").unwrap();
    let note_path = format!("{}/test_note.md", vault.path);
    assert!(fs.contains_path(&note_path));

    let result = manager.delete_entry(&mut fs, vault.id, "test_note.md");
    assert!(result.is_ok());
    assert!(!fs.contains_path(&note_path));
}

#[test]
fn test_rename_entry() {
    let (mut manager, mut fs) = setup_test_manager();
    let vault = manager.create_vault(&mut fs, "/base", "test_vault").unwrap();

    manager.create_note(&mut fs, vault.id, "old_name.md").unwrap();
    let old_path = format!("{}/old_name.md", vault.path);
    let new_path = format!("{}/new_name.md", vault.path);

    assert!(fs.contains_path(&old_path));
    assert!(!fs.contains_path(&new_path));

    let result = manager.rename_entry(&mut fs, vault.id, "old_name.md", "new_name.md");
    assert!(result.is_ok());

    assert!(!fs.contains_path(&old_path));
    assert!(fs.contains_path(&new_path));
}

#[test]
fn test_list_entries() {
    let (mut manager, mut fs) = setup_test_manager();
    let vault = manager.create_vault(&mut fs, "/base", "test_vault").unwrap();

    manager.create_directory(&mut fs, vault.id, "test_directory").unwrap();
    manager.create_note(&mut fs, vault.id, "test_note.md").unwrap();

    let result = manager.list_entries(&fs, vault.id, None);
    assert!(result.is_ok());

    let entries = result.unwrap();
    assert_eq!(entries.len(), 2);

    let entry_names: Vec<&str> = entries.iter().map(|e| e.name.as_str()).collect();
    assert!(entry_names.contains(&"test_directory"));
    assert!(entry_names.contains(&"test_note.md"));

    let directory_entry = entries.iter().find(|e| e.name == "test_directory").unwrap();
    let note_entry = entries.iter().find(|e| e.name == "test_note.md").unwrap();

    assert_eq!(directory_entry.entry_type, EntryType::Directory);
    assert_eq!(note_entry.entry_type, EntryType::Note);
}

#[test]
fn test_find_vault_by_id_not_found() {
    let (mut manager, mut fs) = setup_test_manager();
    let nonexistent_id = uuid::Uuid::now_v7().as_u128();

    let result = manager.rename_vault(&mut fs, nonexistent_id, "anything");
    assert!(result.is_err());
    assert!(result.unwrap_err().message().contains("Vault not found"));
}

#[test]
fn test_list_entries_order() {
    let (mut manager, mut fs) = setup_test_manager();
    let vault = manager.create_vault(&mut fs, "/base", "order_test").unwrap();

    manager.create_note(&mut fs, vault.id, "b.md").unwrap();
    manager.create_directory(&mut fs, vault.id, "A").unwrap();
    manager.create_note(&mut fs, vault.id, "a.md").unwrap();

    let entries = manager.list_entries(&fs, vault.id, None).unwrap();
    let names: Vec<&str> = entries.iter().map(|e| e.name.as_str()).collect();
    assert_eq!(names, vec!["A", "a.md", "b.md"]);
    assert_eq!(entries[0].entry_type, EntryType::Directory);
    assert_eq!(entries[1].entry_type, EntryType::Note);
    assert_eq!(entries[2].entry_type, EntryType::Note);
}

#[test]
fn test_hidden_entries_not_listed() {
    let (mut manager, mut fs) = setup_test_manager();
    let vault = manager.create_vault(&mut fs, "/base", "hidden_test").unwrap();

    manager.create_note(&mut fs, vault.id, ".hidden.md").unwrap();
    manager.create_note(&mut fs, vault.id, "visible.md").unwrap();

    let entries = manager.list_entries(&fs, vault.id, None).unwrap();
    let names: Vec<&str> = entries.iter().map(|e| e.name.as_str()).collect();
    assert_eq!(names, vec!["visible.md"]);
}

#[test]
fn test_entry_timestamps_present() {
    let (mut manager, mut fs) = setup_test_manager();
    let vault = manager.create_vault(&mut fs, "/base", "ts_test").unwrap();
    fs.now = 2_000;
    manager.create_note(&mut fs, vault.id, "n.md").unwrap();

    let entries = manager.list_entries(&fs, vault.id, None).unwrap();
    assert_eq!(entries.len(), 1);
    assert_eq!(entries[0].created_at, Some(2_000));
    assert_eq!(entries[0].updated_at, Some(2_000));
}

#[test]
fn test_error_messages() {
    assert_eq!(
        VaultError::AlreadyExists.message(),
        "A directory with this name already exists"
    );
    assert_eq!(VaultError::NotFound.message(), "Vault not found");
    assert_eq!(
        VaultError::InvalidVault.message(),
        "Not a valid vault: vault.json not found"
    );
    assert_eq!(
        VaultError::IOFailure.message(),
        "The filesystem operation failed"
    );
    assert_eq!(
        VaultError::SerializationFailure.message(),
        "Failed to encode or decode a record"
    );
}

#[test]
fn test_read_note_missing_fails() {
    let (mut manager, mut fs) = setup_test_manager();
    let vault = manager.create_vault(&mut fs, "/base", "missing_test").unwrap();

    let result = manager.read_note(&fs, vault.id, "nope.md");
    assert_eq!(result.unwrap_err(), VaultError::IOFailure);
}

#[test]
fn test_entry_paths_must_stay_inside_vault() {
    let (mut manager, mut fs) = setup_test_manager();
    let vault = manager.create_vault(&mut fs, "/base", "contained").unwrap();
    manager.create_note(&mut fs, vault.id, "inside.md").unwrap();
    let nodes_before = fs.nodes.len();

    for bad in ["../outside", "a/../b", "..", ".", "", "/abs", "a//b", "a/"] {
        assert_eq!(
            manager.create_note(&mut fs, vault.id, bad).unwrap_err(),
            VaultError::IOFailure
        );
        assert_eq!(
            manager.create_directory(&mut fs, vault.id, bad).unwrap_err(),
            VaultError::IOFailure
        );
        assert_eq!(
            manager.edit_note(&mut fs, vault.id, bad, "x").unwrap_err(),
            VaultError::IOFailure
        );
        assert_eq!(
            manager.read_note(&fs, vault.id, bad).unwrap_err(),
            VaultError::IOFailure
        );
        assert_eq!(
            manager.delete_entry(&mut fs, vault.id, bad).unwrap_err(),
            VaultError::IOFailure
        );
        assert_eq!(
            manager.rename_entry(&mut fs, vault.id, bad, "ok.md").unwrap_err(),
            VaultError::IOFailure
        );
        assert_eq!(
            manager.rename_entry(&mut fs, vault.id, "inside.md", bad).unwrap_err(),
            VaultError::IOFailure
        );
        assert_eq!(
            manager.list_entries(&fs, vault.id, Some(bad)).unwrap_err(),
            VaultError::IOFailure
        );
    }

    // Nothing was touched by any of the rejected calls.
    assert_eq!(fs.nodes.len(), nodes_before);
    assert!(fs.file_exists(&format!("{}/inside.md", vault.path)));

    // Plain nested names still work.
    assert!(manager.create_note(&mut fs, vault.id, "dir/fine.md").is_ok());
}
