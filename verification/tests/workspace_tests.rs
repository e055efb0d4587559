use tagcore::SearchArgs;
use tagcore::Tag;
use tagcore::TagFile;
use tagcore::TagFileError;
use tagcore::Workspace;
use tagcore::WorkspaceError;

#[test]
fn is_name_valid() {
    assert_eq!(Workspace::is_name_valid(&"helloworld".to_string()), true);

    assert_eq!(Workspace::is_name_valid(&"hello world".to_string()), false);
    assert_eq!(Workspace::is_name_valid(&"aHib".to_string()), false);
    assert_eq!(Workspace::is_name_valid(&"/".to_string()), false);
    assert_eq!(Workspace::is_name_valid(&"a/b".to_string()), false);
    assert_eq!(Workspace::is_name_valid(&"<".to_string()), false);
}

#[test]
fn get_workspace_file_name() {
    assert_eq!(
        Workspace::get_workspace_file_name(&"name".to_string()),
        ".tagwksp_name".to_string()
    );
    assert_eq!(
        Workspace::get_workspace_file_name(&"a_b_c".to_string()),
        ".tagwksp_a_b_c".to_string()
    );
    assert_eq!(
        Workspace::get_workspace_file_name(&"12345".to_string()),
        ".tagwksp_12345".to_string()
    );
}

// The marker file itself lives on disk; these tests hand in the outcome of
// the caller's filesystem steps (whether the marker could be created or
// opened, and what the root canonicalized to) as plain values.
#[test]
fn workspace_create() {
    let workspace_1 = Workspace::create_workspace(
        &"hello".to_string(),
        true,
        Some("/prefix".to_string()),
    );
    assert!(workspace_1.is_ok());
    assert_eq!(
        workspace_1.unwrap().get_path_to_workspace_file(),
        "/prefix/.tagwksp_hello".to_string()
    );
}

#[test]
fn workspace_open() {
    let workspace_1 = Workspace::open_workspace(
        &"active_space".to_string(),
        true,
        Some("/prefix_root".to_string()),
    );
    assert!(workspace_1.is_ok());

    // "does_not_exist" was never created, so opening its marker failed.
    let workspace_dne = Workspace::open_workspace(&"does_not_exist".to_string(), false, None);
    assert!(workspace_dne.is_err());
}

#[test]
fn create_workspace_rejects_invalid_names() {
    let r = Workspace::create_workspace(&"Bad Name".to_string(), true, Some("/d".to_string()));
    assert!(matches!(r, Err(WorkspaceError::InvalidName(_))));
    let r = Workspace::open_workspace(&"foo/\\bar<><>".to_string(), true, Some("/d".to_string()));
    assert!(matches!(r, Err(WorkspaceError::InvalidName(_))));
}

// Creating the same workspace twice: the second exclusive creation of the
// marker file fails on disk, and the workspace call reports it.
#[test]
fn create_workspace_twice_fails() {
    let first = Workspace::create_workspace(&"n".to_string(), true, Some("/d".to_string()));
    assert!(first.is_ok());
    let second = Workspace::create_workspace(&"n".to_string(), false, None);
    assert!(matches!(second, Err(WorkspaceError::FileUnavailable(_))));
}

// Opening a workspace that was never created: the marker file is absent,
// so opening it fails on disk, and the workspace call reports it.
#[test]
fn open_workspace_without_create_fails() {
    let r = Workspace::open_workspace(&"n".to_string(), false, None);
    assert!(matches!(r, Err(WorkspaceError::FileUnavailable(_))));
}

fn fresh_workspace(root: &str, name: &str) -> Workspace {
    Workspace::create_workspace(&name.to_string(), true, Some(root.to_string())).unwrap()
}

#[test]
fn workspace_open_add_tags_to_file() {
    let mut workspace = fresh_workspace("/root", "testspace");

    let result =
        workspace.add_tag_to_file("/root", "/root/./file1.txt", "Hello".to_string(), None);
    assert!(result.is_ok());
    let (sidecar, doc) = result.unwrap();
    assert_eq!(sidecar, "/root/.tag_testspace".to_string());
    assert_eq!(doc, "[mapping]\n\"file1.txt\" = [\"Hello\"]\n");

    let result =
        workspace.add_tag_to_file("/root", "/root/./file2.txt", "EndAll".to_string(), None);
    assert!(result.is_ok());
    let (sidecar, _doc) = result.unwrap();
    assert_eq!(sidecar, "/root/.tag_testspace".to_string());

    let result = workspace.add_tag_to_file(
        "/root/subfolder",
        "/root/subfolder/nested.txt",
        "TODO".to_string(),
        None,
    );
    assert!(result.is_ok());
    let (sidecar, doc) = result.unwrap();
    assert_eq!(sidecar, "/root/subfolder/.tag_testspace".to_string());
    assert_eq!(doc, "[mapping]\n\"nested.txt\" = [\"TODO\"]\n");
}

#[test]
fn workspace_get_tags_for_filename() {
    let mut workspace = fresh_workspace("/root", "testspace");
    let _ = workspace.add_tag_to_file("/root", "/root/./file1.txt", "Hello".to_string(), None);
    let _ = workspace.add_tag_to_file(
        "/root",
        "/root/./file1.txt",
        "Hello".to_string(),
        Some("World".to_string()),
    );
    let _ = workspace.add_tag_to_file("/root", "/root/./file2.txt", "EndAll".to_string(), None);
    let _ = workspace.add_tag_to_file(
        "/root/subfolder",
        "/root/subfolder/nested.txt",
        "TODO".to_string(),
        None,
    );

    let result = workspace.get_tags_for_file_name("/root", "/root/./file1.txt");
    assert!(result.is_ok());
    let result = result.unwrap();
    assert_eq!(result.len(), 2);
    assert_eq!(result[0], Tag::Simple("Hello".to_string()));
    assert_eq!(result[1], Tag::KV("Hello".to_string(), "World".to_string()));

    let result = workspace.get_tags_for_file_name("/root", "/root/./file2.txt");
    assert!(result.is_ok());
    let result = result.unwrap();
    assert_eq!(result.len(), 1);
    assert_eq!(result[0], Tag::Simple("EndAll".to_string()));

    let result = workspace.get_tags_for_file_name("/root", "/root/./fileDNE.txt");
    assert!(result.is_ok());
    assert!(result.unwrap().is_empty());

    let result = workspace.get_tags_for_file_name("/root/subfolder", "/root/subfolder/nested.txt");
    assert!(result.is_ok());
    let result = result.unwrap();
    assert_eq!(result.len(), 1);
    assert_eq!(result[0], Tag::Simple("TODO".to_string()));
}

#[test]
fn workspace_open_remove_tags_from_file() {
    let mut workspace = fresh_workspace("/root", "testspace");

    let _ = workspace.add_tag_to_file("/root", "/root/./file1.txt", "Hello".to_string(), None);
    let _ = workspace.add_tag_to_file(
        "/root",
        "/root/./file1.txt",
        "Hello".to_string(),
        Some("World".to_string()),
    );
    let _ = workspace.add_tag_to_file("/root", "/root/./file2.txt", "Hello".to_string(), None);
    let _ = workspace.add_tag_to_file(
        "/root",
        "/root/./file2.txt",
        "Hello".to_string(),
        Some("World".to_string()),
    );
    let _ = workspace.add_tag_to_file("/root", "/root/./file3.txt", "A".to_string(), None);
    let _ = workspace.add_tag_to_file(
        "/root",
        "/root/./file4.txt",
        "A".to_string(),
        Some("B".to_string()),
    );
    let _ = workspace.add_tag_to_file(
        "/root/subfolder",
        "/root/subfolder/nested.txt",
        "TODO".to_string(),
        None,
    );

    let result = workspace.remove_tag_from_file("/root", "/root/./file1.txt", "Hello".to_string(), None);
    assert!(result.is_ok());
    let result = workspace.get_tags_for_file_name("/root", "/root/./file1.txt").unwrap();
    assert_eq!(result.len(), 1);
    assert_eq!(result[0], Tag::KV("Hello".to_string(), "World".to_string()));

    let result = workspace.remove_tag_from_file(
        "/root",
        "/root/./file2.txt",
        "Hello".to_string(),
        Some("World".to_string()),
    );
    assert!(result.is_ok());
    let result = workspace.get_tags_for_file_name("/root", "/root/./file2.txt").unwrap();
    assert_eq!(result.len(), 1);
    assert_eq!(result[0], Tag::Simple("Hello".to_string()));

    let result = workspace.remove_tag_from_file(
        "/root",
        "/root/./file3.txt",
        "A".to_string(),
        Some("B".to_string()),
    );
    assert!(result.is_ok());
    let result = workspace.get_tags_for_file_name("/root", "/root/./file3.txt").unwrap();
    assert_eq!(result.len(), 1);
    assert_eq!(result[0], Tag::Simple("A".to_string()));

    let result = workspace.remove_tag_from_file("/root", "/root/./file3.txt", "A".to_string(), None);
    assert!(result.is_ok());
    let result = workspace.get_tags_for_file_name("/root", "/root/./file3.txt").unwrap();
    assert!(result.is_empty());

    let result = workspace.remove_tag_from_file("/root", "/root/./file4.txt", "A".to_string(), None);
    assert!(result.is_ok());
    let result = workspace.get_tags_for_file_name("/root", "/root/./file4.txt").unwrap();
    assert_eq!(result.len(), 1);
    assert_eq!(result[0], Tag::KV("A".to_string(), "B".to_string()));

    let result = workspace.remove_tag_from_file(
        "/root",
        "/root/./file4.txt",
        "A".to_string(),
        Some("B".to_string()),
    );
    assert!(result.is_ok());
    let result = workspace.get_tags_for_file_name("/root", "/root/./file4.txt").unwrap();
    assert!(result.is_empty());

    let result = workspace.remove_tag_from_file(
        "/root/subfolder",
        "/root/subfolder/nested.txt",
        "TODO".to_string(),
        None,
    );
    assert!(result.is_ok());
    let result = workspace
        .get_tags_for_file_name("/root/subfolder", "/root/subfolder/nested.txt")
        .unwrap();
    assert!(result.is_empty());
}

// Removing from a directory whose sidecar was never loaded is a silent
// no-op: nothing is read from disk on demand.
#[test]
fn remove_from_unloaded_directory_is_noop() {
    let mut workspace = fresh_workspace("/root", "testspace");
    let result =
        workspace.remove_tag_from_file("/elsewhere", "/elsewhere/f.txt", "A".to_string(), None);
    assert!(matches!(result, Ok(None)));
}

// Adding the same tag twice never creates a duplicate.
#[test]
fn add_tag_twice_is_idempotent() {
    let mut workspace = fresh_workspace("/d", "n");
    let _ = workspace.add_tag_to_file("/d", "/d/f", "A".to_string(), None);
    let _ = workspace.add_tag_to_file("/d", "/d/f", "A".to_string(), None);
    let tags = workspace.get_tags_for_file_name("/d", "/d/f").unwrap();
    assert_eq!(tags, vec![Tag::Simple("A".to_string())]);
}

// Adding a tag to a fresh file and removing it leaves the file without an
// entry, both in memory and in the persisted document.
#[test]
fn add_then_remove_clears_the_entry() {
    let mut workspace = fresh_workspace("/d", "n");
    let _ = workspace.add_tag_to_file("/d", "/d/f", "Due".to_string(), Some("Friday".to_string()));
    let removed = workspace
        .remove_tag_from_file("/d", "/d/f", "Due".to_string(), Some("Friday".to_string()))
        .unwrap();
    let tags = workspace.get_tags_for_file_name("/d", "/d/f").unwrap();
    assert_eq!(tags, Vec::<Tag>::new());

    let (_path, doc) = removed.unwrap();
    let reloaded = TagFile::from_document("/d/.tag_n".to_string(), doc.as_str()).unwrap();
    assert!(reloaded.get_all_tags_for_filename(&"f".to_string()).is_empty());
    assert_eq!(reloaded.mapping.len(), 0);
}

#[test]
fn query_exact_and_fuzzy() {
    let mut workspace = fresh_workspace("/d", "n");
    let _ = workspace.add_tag_to_file(
        "/d",
        "/d/file.txt",
        "Due".to_string(),
        Some("Friday".to_string()),
    );

    let exact = workspace.query_exact("Due", false, true, false);
    assert_eq!(exact.len(), 1);
    assert_eq!(exact[0].0, "file.txt".to_string());
    assert_eq!(
        exact[0].1,
        vec![Tag::KV("Due".to_string(), "Friday".to_string())]
    );

    let nothing = workspace.query_exact("Du", false, true, false);
    assert!(nothing.is_empty());

    let fuzzy = workspace.query_fuzzy("Du", false, true, false);
    assert_eq!(fuzzy.len(), 1);
    assert_eq!(fuzzy[0].0, "file.txt".to_string());
    assert_eq!(
        fuzzy[0].1,
        vec![Tag::KV("Due".to_string(), "Friday".to_string())]
    );

    // The value side is not searched unless asked for.
    assert!(workspace.query_exact("Friday", false, true, false).is_empty());
    assert_eq!(workspace.query_exact("Friday", false, false, true).len(), 1);
}

// A scanned document is folded into the index and answered from memory.
#[test]
fn absorb_scanned_document() {
    let mut workspace = fresh_workspace("/d", "n");
    let r = workspace.absorb_tagfile_document(
        "/d/.tag_n".to_string(),
        "[mapping]\nnotes = [\"TODO\", [\"Due\", \"Today\"]]\n",
    );
    assert!(r.is_ok());
    let tags = workspace.get_tags_for_file_name("/d", "/d/notes").unwrap();
    assert_eq!(
        tags,
        vec![
            Tag::Simple("TODO".to_string()),
            Tag::KV("Due".to_string(), "Today".to_string())
        ]
    );

    let bad = workspace.absorb_tagfile_document("/d/.tag_n".to_string(), "not a document");
    assert!(matches!(bad, Err(TagFileError::Serialize(_))));
}

#[test]
fn add_with_bad_path_fails() {
    let mut workspace = fresh_workspace("/d", "n");
    let r = workspace.add_tag_to_file("/d", "/", "A".to_string(), None);
    assert!(matches!(r, Err(TagFileError::BadPath(_))));
}

#[test]
fn error_messages() {
    assert_eq!(
        WorkspaceError::InvalidName("Bad Name".to_string()).message(),
        "Workspace name is invalid: Bad Name".to_string()
    );
    assert_eq!(
        TagFileError::Io("disk full".to_string()).message(),
        "Encountered IO error: disk full".to_string()
    );
}

#[test]
fn search_args_normalize() {
    let args = SearchArgs {
        exact: true,
        fuzzy: false,
        simple_on: false,
        key_on: false,
        values_on: false,
        tags: vec!["x".to_string()],
    };
    let args = args.normalize();
    assert!(args.simple_on && args.key_on && args.values_on);
    assert!(args.exact);
    assert_eq!(args.tags, vec!["x".to_string()]);

    let args = SearchArgs {
        exact: false,
        fuzzy: true,
        simple_on: true,
        key_on: false,
        values_on: false,
        tags: vec![],
    };
    let args = args.normalize();
    assert!(args.simple_on && !args.key_on && !args.values_on);
}
