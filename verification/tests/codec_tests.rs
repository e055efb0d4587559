use tagcore::codec::parse_document;
use tagcore::codec::write_document;
use tagcore::Tag;

#[test]
fn document_round_trip_mixed_tags() {
    let mapping: Vec<(String, Vec<Tag>)> = vec![
        (
            "report.txt".to_string(),
            vec![
                Tag::Simple("Draft".to_string()),
                Tag::KV("Due".to_string(), "Friday".to_string()),
            ],
        ),
        ("notes".to_string(), vec![Tag::Simple("TODO".to_string())]),
        (
            "odd \"name\".txt".to_string(),
            vec![
                Tag::KV("has\\backslash".to_string(), "and \"quotes\"".to_string()),
                Tag::Simple("line\nbreak".to_string()),
            ],
        ),
    ];
    let doc = write_document(&mapping);
    let back = parse_document(doc.as_str()).unwrap();
    assert_eq!(back.len(), mapping.len());
    for (got, want) in back.iter().zip(mapping.iter()) {
        assert_eq!(got.0, want.0);
        assert_eq!(got.1, want.1);
    }
}

#[test]
fn parser_accepts_blank_lines_and_loose_spacing() {
    let doc = "\n\n[mapping]\n   \nfile1 = [ \"a\" ,[\"k\",\"v\"] ]  \n\n";
    let entries = parse_document(doc).unwrap();
    assert_eq!(entries.len(), 1);
    assert_eq!(entries[0].0, "file1");
    assert_eq!(
        entries[0].1,
        vec![
            Tag::Simple("a".to_string()),
            Tag::KV("k".to_string(), "v".to_string())
        ]
    );
}

// Reading a document and writing it again preserves each file's tag order
// exactly, whatever order the file entries stood in.
#[test]
fn reserialize_preserves_each_files_tag_order() {
    let doc_a = "[mapping]\nfile1 = [\"TODO\", [\"Due\", \"Today\"]]\nfile2 = [\"Hi\"]\n";
    let doc_b = "[mapping]\nfile2 = [\"Hi\"]\nfile1 = [\"TODO\", [\"Due\", \"Today\"]]\n";
    for doc in [doc_a, doc_b] {
        let entries = parse_document(doc).unwrap();
        let rewritten = write_document(&entries);
        let again = parse_document(rewritten.as_str()).unwrap();
        let file1 = again.iter().find(|e| e.0 == "file1").unwrap();
        assert_eq!(
            file1.1,
            vec![
                Tag::Simple("TODO".to_string()),
                Tag::KV("Due".to_string(), "Today".to_string())
            ]
        );
        let file2 = again.iter().find(|e| e.0 == "file2").unwrap();
        assert_eq!(file2.1, vec![Tag::Simple("Hi".to_string())]);
        assert_eq!(again, entries);
    }
}

#[test]
fn parser_rejects_duplicate_file_names() {
    let doc = "[mapping]\nfile1 = [\"a\"]\nfile1 = [\"b\"]\n";
    assert!(parse_document(doc).is_none());
}

#[test]
fn parser_rejects_junk() {
    assert!(parse_document("").is_none());
    assert!(parse_document("[mapping").is_none());
    assert!(parse_document("[mapping]\nfile1 = [\"a\"\n").is_none());
    assert!(parse_document("[mapping]\nfile1 = [\"a\"] trailing\n").is_none());
    assert!(parse_document("[other]\nfile1 = [\"a\"]\n").is_none());
}

#[test]
fn document_read_by_real_toml() {
    let mapping: Vec<(String, Vec<Tag>)> = vec![
        (
            "a file.txt".to_string(),
            vec![
                Tag::Simple("Draft \"v2\"".to_string()),
                Tag::KV("Due".to_string(), "Fri\\day".to_string()),
            ],
        ),
        ("plain".to_string(), vec![Tag::Simple("ok".to_string())]),
    ];
    let doc = write_document(&mapping);

    let table: toml::Table = toml::from_str(doc.as_str()).unwrap();
    let section = table["mapping"].as_table().unwrap();
    assert_eq!(section.len(), 2);
    let first = section["a file.txt"].as_array().unwrap();
    assert_eq!(first[0].as_str().unwrap(), "Draft \"v2\"");
    let pair = first[1].as_array().unwrap();
    assert_eq!(pair[0].as_str().unwrap(), "Due");
    assert_eq!(pair[1].as_str().unwrap(), "Fri\\day");
    let second = section["plain"].as_array().unwrap();
    assert_eq!(second[0].as_str().unwrap(), "ok");
}

#[test]
fn document_written_by_real_toml_reads_back() {
    let mut section = toml::Table::new();
    section.insert(
        "file1".to_string(),
        toml::Value::Array(vec![toml::Value::String("TODO".to_string())]),
    );
    section.insert(
        "file2".to_string(),
        toml::Value::Array(vec![
            toml::Value::Array(vec![
                toml::Value::String("Due".to_string()),
                toml::Value::String("Today".to_string()),
            ]),
            toml::Value::String("Hi".to_string()),
        ]),
    );
    let mut table = toml::Table::new();
    table.insert("mapping".to_string(), toml::Value::Table(section));
    let doc = toml::to_string(&table).unwrap();

    let entries = parse_document(doc.as_str()).unwrap();
    assert_eq!(entries.len(), 2);
    let file1 = entries.iter().find(|e| e.0 == "file1").unwrap();
    assert_eq!(file1.1, vec![Tag::Simple("TODO".to_string())]);
    let file2 = entries.iter().find(|e| e.0 == "file2").unwrap();
    assert_eq!(
        file2.1,
        vec![
            Tag::KV("Due".to_string(), "Today".to_string()),
            Tag::Simple("Hi".to_string())
        ]
    );
}
