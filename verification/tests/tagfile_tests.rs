use tagcore::Tag;
use tagcore::TagFile;
use tagcore::TagFileError;

#[test]
fn deserialize_tagfile_from_str() {
    let tf_str: &str = r#"
[mapping]
file1 = ["TODO"]
file2 = [["Character", "Jim"], "TODO", "yoohoo", ["Chara","VonVia"], "bello!"]
        "#;

    let tf: TagFile = TagFile::from_document(".".to_string(), tf_str).unwrap();

    assert_eq!(tf.mapping.len(), 2);
    let file1 = tf.get_all_tags_for_filename(&"file1".to_string());
    assert_eq!(file1.len(), 1);
    assert_eq!(file1[0], Tag::Simple("TODO".to_string()));

    let file2 = tf.get_all_tags_for_filename(&"file2".to_string());
    assert_eq!(file2.len(), 5);
    assert_eq!(file2[0], Tag::KV("Character".to_string(), "Jim".to_string()));
    assert_eq!(file2[3], Tag::KV("Chara".to_string(), "VonVia".to_string()));
}

#[test]
fn serialize_tagfile_to_str() {
    let tf: TagFile = TagFile {
        full_path_to_tagfile: ".".to_string(),
        mapping: vec![
            ("file1".to_string(), vec![Tag::Simple("TODO".to_string())]),
            (
                "file2".to_string(),
                vec![
                    Tag::KV("Due".to_string(), "Today".to_string()),
                    Tag::Simple("Hi".to_string()),
                ],
            ),
        ],
    };

    let text = tf.to_document();
    let possible_string_1 = r#"[mapping]
file1 = ["TODO"]
file2 = [["Due", "Today"], "Hi"]
"#;

    let possible_string_2: &str = r#"[mapping]
file2 = [["Due", "Today"], "Hi"]
file1 = ["TODO"]
"#;

    assert!(text == possible_string_1 || text == possible_string_2);
}

#[test]
fn load_tagfile_from_document() {
    let tf: TagFile = TagFile::from_document(
        "/dir/.tag_test".to_string(),
        "[mapping]\nfile1 = [\"TODO\"]\nfile2 = [[\"Due\", \"Today\"], \"Hi\"]\n",
    )
    .unwrap();

    assert_eq!(tf.mapping.len(), 2);
    let file1 = tf.get_all_tags_for_filename(&"file1".to_string());
    assert_eq!(file1.len(), 1);
    assert_eq!(file1[0], Tag::Simple("TODO".to_string()));

    let file2 = tf.get_all_tags_for_filename(&"file2".to_string());
    assert_eq!(file2.len(), 2);
    assert_eq!(file2[0], Tag::KV("Due".to_string(), "Today".to_string()));
    assert_eq!(file2[1], Tag::Simple("Hi".to_string()));

    assert_eq!(tf.full_path_to_tagfile, "/dir/.tag_test".to_string());
}

#[test]
fn load_tagfile_from_document_empty() {
    let tf: TagFile = TagFile::from_document(".".to_string(), "[mapping]\n").unwrap();
    assert_eq!(tf.mapping.len(), 0);
}

#[test]
fn tagfile_rejects_malformed_documents() {
    // No header.
    assert!(matches!(
        TagFile::from_document(".".to_string(), "file1 = [\"TODO\"]\n"),
        Err(TagFileError::Serialize(_))
    ));
    // A bare (unquoted, non-list) value.
    assert!(matches!(
        TagFile::from_document(".".to_string(), "[mapping]\nfile1 = \"TODO\"\n"),
        Err(TagFileError::Serialize(_))
    ));
    // A duplicated file name.
    assert!(matches!(
        TagFile::from_document(
            ".".to_string(),
            "[mapping]\nfile1 = [\"a\"]\nfile1 = [\"b\"]\n"
        ),
        Err(TagFileError::Serialize(_))
    ));
    // An empty tag list.
    assert!(matches!(
        TagFile::from_document(".".to_string(), "[mapping]\nfile1 = []\n"),
        Err(TagFileError::Serialize(_))
    ));
    // The same tag twice on one file.
    assert!(matches!(
        TagFile::from_document(".".to_string(), "[mapping]\nfile1 = [\"a\", \"a\"]\n"),
        Err(TagFileError::Serialize(_))
    ));
}

#[test]
fn tagfile_add_tag_to_file_in_self() {
    let mut tf: TagFile = TagFile::from_document("/dir/.tag_test".to_string(), "[mapping]\n")
        .unwrap();

    let path_to_file = "/dir/file1.txt";
    tf.add_tag_to_file_in_self(path_to_file, Tag::Simple("ADDED TAG".to_string()))
        .unwrap();

    let tags = tf.get_all_tags_for_filename(&"file1.txt".to_string());
    assert_eq!(tags.len(), 1);
    assert_eq!(tags[0], Tag::Simple("ADDED TAG".to_string()));

    tf.add_tag_to_file_in_self(path_to_file, Tag::Simple("ADDED TAG".to_string()))
        .unwrap();

    let tags = tf.get_all_tags_for_filename(&"file1.txt".to_string());
    assert_eq!(tags.len(), 1);
    assert_eq!(tags[0], Tag::Simple("ADDED TAG".to_string()));

    tf.add_tag_to_file_in_self(path_to_file, Tag::Simple("SECOND TAG".to_string()))
        .unwrap();

    let tags = tf.get_all_tags_for_filename(&"file1.txt".to_string());
    assert_eq!(tags.len(), 2);
    assert_eq!(tags[1], Tag::Simple("SECOND TAG".to_string()));

    tf.add_tag_to_file_in_self(path_to_file, Tag::KV("Key".to_string(), "value".to_string()))
        .unwrap();

    let tags = tf.get_all_tags_for_filename(&"file1.txt".to_string());
    assert_eq!(tags.len(), 3);
    assert_eq!(tags[2], Tag::KV("Key".to_string(), "value".to_string()));

    let path_to_file = "/dir/secondfile.c";
    tf.add_tag_to_file_in_self(path_to_file, Tag::KV("DUE".to_string(), "tomorrow".to_string()))
        .unwrap();

    assert_eq!(tf.mapping.len(), 2);
    let tags = tf.get_all_tags_for_filename(&"secondfile.c".to_string());
    assert_eq!(tags.len(), 1);
    assert_eq!(tags[0], Tag::KV("DUE".to_string(), "tomorrow".to_string()));

    let contents = tf.to_document();
    let possible_string_1 = r#"[mapping]
"secondfile.c" = [["DUE", "tomorrow"]]
"file1.txt" = ["ADDED TAG", "SECOND TAG", ["Key", "value"]]
"#;

    let possible_string_2: &str = r#"[mapping]
"file1.txt" = ["ADDED TAG", "SECOND TAG", ["Key", "value"]]
"secondfile.c" = [["DUE", "tomorrow"]]
"#;
    assert!(contents == possible_string_1 || contents == possible_string_2);
}

#[test]
fn tagfile_remove_tag_from_file_in_self() {
    let mut tf: TagFile = TagFile::from_document(
        "/dir/.tag_test".to_string(),
        r#"[mapping]
"file1.txt" = ["TODO", "Blue"]
"file2.c" = [["Due", "Today"], "Hi", ["Color", "Red"]]
"#,
    )
    .unwrap();

    let path_to_file1 = "/dir/file1.txt";
    let path_to_file2 = "/dir/file2.c";

    tf.remove_tag_from_file_in_self(path_to_file1, &Tag::Simple("TODO".to_string()))
        .unwrap();

    let tags1 = tf.get_all_tags_for_filename(&"file1.txt".to_string());
    assert_eq!(tags1.len(), 1);
    assert_eq!(tags1[0], Tag::Simple("Blue".to_string()));
    let tags2 = tf.get_all_tags_for_filename(&"file2.c".to_string());
    assert_eq!(tags2.len(), 3);

    tf.remove_tag_from_file_in_self(path_to_file2, &Tag::KV("Due".to_string(), "Today".to_string()))
        .unwrap();

    let tags1 = tf.get_all_tags_for_filename(&"file1.txt".to_string());
    assert_eq!(tags1.len(), 1);
    let tags2 = tf.get_all_tags_for_filename(&"file2.c".to_string());
    assert_eq!(tags2.len(), 2);
    assert_eq!(tags2[0], Tag::Simple("Hi".to_string()));
    assert_eq!(tags2[1], Tag::KV("Color".to_string(), "Red".to_string()));

    tf.remove_tag_from_file_in_self(path_to_file1, &Tag::Simple("Blue".to_string()))
        .unwrap();

    let tags1 = tf.get_all_tags_for_filename(&"file1.txt".to_string());
    assert!(tags1.is_empty());
    assert_eq!(tf.mapping.len(), 1);

    let contents = tf.to_document();
    assert_eq!(
        contents,
        r#"[mapping]
"file2.c" = ["Hi", ["Color", "Red"]]
"#
    );
}

#[test]
fn tagfile_all_literals() {
    let tf: TagFile = TagFile::from_document(
        ".".to_string(),
        "[mapping]\nfile1 = [\"TODO\", [\"Due\", \"Today\"]]\nfile2 = [\"TODO\"]\n",
    )
    .unwrap();
    let mut lits = tf.get_all_tags_string();
    lits.sort();
    assert_eq!(
        lits,
        vec!["Due".to_string(), "TODO".to_string(), "Today".to_string()]
    );
}
