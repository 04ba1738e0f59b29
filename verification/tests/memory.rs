//! Memory: records, their files, the index, and what is recalled.

use bytemaker::domain::message::{ContentBlock, Message};
use bytemaker::frontmatter::split_frontmatter;
use bytemaker::json::Json;
use bytemaker::memory::consolidate::{StoreAction, StoreReply};
use bytemaker::memory::retrieval::{
    keyword_memory_selection, tokenize_query, ModelKeywordRetrieval,
};
use bytemaker::memory::storage::{
    index_content, list_entries, memory_document, parse_frontmatter, FsMemoryStorage, IndexEntry,
    MemoryDoc, MemoryFile, MemoryFrontmatter,
};
use bytemaker::memory::{
    build_system, dialogue_text, extract_json_array, memory_slug, recent_user_text,
    should_store_memory, validate_memory_record, MemoryRecord, MemoryStore, StoreStep,
    ValidatedRecord, CONSOLIDATE_THRESHOLD,
};

fn convert(v: serde_json::Value) -> Json {
    match v {
        serde_json::Value::Null => Json::Null,
        serde_json::Value::Bool(b) => Json::Bool(b),
        serde_json::Value::Number(n) => match (n.as_i64(), n.as_u64()) {
            (Some(i), _) => Json::Int(i),
            (None, Some(u)) => Json::UInt(u),
            (None, None) => Json::Real(n.to_string()),
        },
        serde_json::Value::String(s) => Json::Text(s),
        serde_json::Value::Array(a) => Json::Array(a.into_iter().map(convert).collect()),
        serde_json::Value::Object(o) => {
            Json::Object(o.into_iter().map(|(k, v)| (k, convert(v))).collect())
        }
    }
}

fn json(text: &str) -> Json {
    convert(serde_json::from_str(text).expect("valid JSON"))
}

fn user_text(s: &str) -> Message {
    Message::user_text(s)
}

fn text_field(v: &serde_yaml::Value, key: &str) -> Result<Option<String>, ()> {
    match v.get(key) {
        None | Some(serde_yaml::Value::Null) => Ok(None),
        Some(serde_yaml::Value::String(s)) => Ok(Some(s.clone())),
        Some(_) => Err(()),
    }
}

/// The fields in front of the text, where their YAML can be read.
fn yaml_fields(text: &str) -> Option<MemoryFrontmatter> {
    let (block, _) = split_frontmatter(text)?;
    let v: serde_yaml::Value = serde_yaml::from_str(&block).ok()?;
    Some(MemoryFrontmatter {
        name: text_field(&v, "name").ok()?,
        description: text_field(&v, "description").ok()?,
        mem_type: text_field(&v, "type").ok()?,
    })
}

fn parse(text: &str) -> (MemoryFrontmatter, String) {
    parse_frontmatter(text, yaml_fields(text))
}

fn document(doc: &MemoryDoc) -> String {
    memory_document(&doc.name, &doc.mem_type, &doc.description, &doc.body)
}

/// A directory of records, in memory.
struct Files(Vec<(String, String)>);

impl Files {
    fn write(&mut self, name: &str, text: String) {
        self.delete(name);
        self.0.push((name.to_string(), text));
    }

    fn delete(&mut self, name: &str) {
        self.0.retain(|(n, _)| n != name);
    }

    fn read(&self, name: &str) -> Option<String> {
        self.0.iter().find(|(n, _)| n == name).map(|(_, t)| t.clone())
    }

    fn add(&mut self, name: &str, mem_type: &str, description: &str, body: &str) {
        match MemoryStore::write_memory_file(name, mem_type, description, body) {
            Ok((filename, doc)) => self.write(&filename, document(&doc)),
            Err(e) => panic!("{}", e.to_string()),
        }
    }

    fn run(&mut self, steps: Vec<StoreStep>) {
        for step in steps {
            match step {
                StoreStep::Delete { filename } => self.delete(&filename),
                StoreStep::Write { filename, doc } => self.write(&filename, document(&doc)),
            }
        }
    }

    fn files(&self) -> Vec<MemoryFile> {
        self.0
            .iter()
            .map(|(filename, text)| {
                let (frontmatter, body) = parse(text);
                MemoryFile { filename: filename.clone(), frontmatter, body, empty: text.is_empty() }
            })
            .collect()
    }

    fn entries(&self) -> Vec<IndexEntry> {
        list_entries(&self.files())
    }

    fn records(&self) -> Vec<MemoryRecord> {
        MemoryStore::list_records(&self.entries(), &self.files())
    }

    fn index(&self) -> String {
        MemoryStore::read_memory_index(&index_content(&self.entries()))
    }
}

fn slug_cases() {
    assert_eq!(memory_slug("User Preference: Tabs"), "user-preference-tabs");
    assert_eq!(memory_slug("  leading   spaces "), "leading-spaces");
}

#[test]
fn a_slug_is_a_slug_of_itself() {
    for name in ["User Preference: Tabs", "  --A_b  9!", "Über Größe", "!!!", "字 体"] {
        let s = memory_slug(name);
        assert_eq!(memory_slug(&s), s);
        assert!(!s.is_empty() && !s.starts_with('-') && !s.ends_with('-') && !s.contains("--"));
    }
    assert_eq!(memory_slug("Über Größe"), "über-größe");
}

fn slug_fallback_cases() {
    assert_eq!(memory_slug(""), "memory");
    assert_eq!(memory_slug("!!!"), "memory");
    assert_eq!(memory_slug("---"), "memory");
}

#[test]
fn memory_slug_normalizes_punctuation() {
    slug_cases();
}

#[test]
fn mod_slug_normalizes_punctuation() {
    slug_cases();
}

#[test]
fn memory_slug_keeps_cjk() {
    assert_eq!(memory_slug("用户偏好"), "用户偏好");
}

#[test]
fn mod_slug_keeps_cjk() {
    assert_eq!(memory_slug("用户偏好"), "用户偏好");
}

#[test]
fn memory_slug_empty_or_all_punct_falls_back() {
    slug_fallback_cases();
}

#[test]
fn mod_slug_empty_or_all_punct_falls_back() {
    slug_fallback_cases();
}

fn frontmatter_normal() {
    let text = "---\nname: tabs\ndescription: prefer tabs\ntype: user\n---\n\nbody here";
    let (fm, body) = parse(text);
    assert_eq!(fm.name.as_deref(), Some("tabs"));
    assert_eq!(fm.description.as_deref(), Some("prefer tabs"));
    assert_eq!(fm.mem_type.as_deref(), Some("user"));
    assert_eq!(body, "body here");
}

fn frontmatter_missing() {
    let text = "# just a heading\nno fm";
    let (fm, body) = parse(text);
    assert!(fm.name.is_none());
    assert_eq!(body, text);
}

fn frontmatter_malformed() {
    let text = "---\nname: : :\n---\nbody";
    let (fm, body) = parse(text);
    assert!(fm.name.is_none());
    assert!(body.starts_with("---"));
}

fn document_round_trip() {
    let doc = memory_document("Tabs", "user", "prefer tabs", "Use tabs for indent.");
    let (fm, body) = parse(&doc);
    assert_eq!(fm.name.as_deref(), Some("Tabs"));
    assert_eq!(fm.mem_type.as_deref(), Some("user"));
    assert_eq!(body.trim(), "Use tabs for indent.");
}

#[test]
fn memory_parse_frontmatter_normal() {
    frontmatter_normal();
}

#[test]
fn storage_parse_frontmatter_normal() {
    frontmatter_normal();
}

#[test]
fn memory_parse_frontmatter_missing_falls_back_to_full_text() {
    frontmatter_missing();
}

#[test]
fn storage_parse_frontmatter_missing_falls_back_to_full_text() {
    frontmatter_missing();
}

#[test]
fn memory_parse_frontmatter_malformed_yaml_falls_back() {
    frontmatter_malformed();
}

#[test]
fn storage_parse_frontmatter_malformed_yaml_falls_back() {
    frontmatter_malformed();
}

#[test]
fn memory_memory_document_round_trips() {
    document_round_trip();
}

#[test]
fn storage_memory_document_round_trips() {
    document_round_trip();
}

#[test]
fn memory_path_rejects_separators_and_dotdot() {
    assert!(FsMemoryStorage::validate_key("a/b.md").is_err());
    assert!(FsMemoryStorage::validate_key("..").is_err());
    assert!(FsMemoryStorage::validate_key(".").is_err());
    assert!(FsMemoryStorage::validate_key("good.md").is_ok());
}

#[test]
fn validate_key_rejects_separators_and_dotdot() {
    assert!(FsMemoryStorage::validate_key("a/b.md").is_err());
    assert!(FsMemoryStorage::validate_key("..").is_err());
    assert!(FsMemoryStorage::validate_key(".").is_err());
    assert!(FsMemoryStorage::validate_key("good.md").is_ok());
}

#[test]
fn validate_key_rejects_index() {
    assert!(FsMemoryStorage::validate_key("MEMORY.md").is_err());
}

#[test]
fn memory_write_then_read_file_and_index() {
    let mut files = Files(vec![]);
    files.add("User preference tabs", "user", "prefer tabs", "Use tabs.");
    let filename = format!("{}.md", memory_slug("User preference tabs"));
    assert_eq!(
        files.read(&filename).unwrap(),
        memory_document("User preference tabs", "user", "prefer tabs", "Use tabs.")
    );
    let index = files.index();
    assert!(index.contains(&format!("- [User preference tabs]({}) - prefer tabs", filename)));
}

#[test]
fn mod_write_then_read_file_and_index() {
    let mut files = Files(vec![]);
    files.add("User preference tabs", "user", "prefer tabs", "Use tabs.");
    let filename = format!("{}.md", memory_slug("User preference tabs"));
    let content = files.read(&filename).unwrap();
    assert!(content.contains("name: User preference tabs"));
    assert!(content.contains("type: user"));
    assert!(content.contains("Use tabs."));
    let index = files.index();
    assert!(index.contains(&format!("- [User preference tabs]({}) - prefer tabs", filename)));
}

#[test]
fn write_then_read() {
    let content =
        memory_document("User preference tabs", "user", "prefer tabs", "Use tabs for indent.");
    assert!(content.contains("name: User preference tabs"));
    assert!(content.contains("type: user"));
    assert!(content.contains("Use tabs for indent."));
}

fn bad_input_cases() {
    assert!(MemoryStore::write_memory_file("", "user", "d", "b").is_err());
    assert!(MemoryStore::write_memory_file("n", "bogus", "d", "b").is_err());
    assert!(MemoryStore::write_memory_file("n", "user", "", "b").is_err());
    assert!(MemoryStore::write_memory_file("n", "user", "d", "").is_err());
}

#[test]
fn memory_write_rejects_bad_input() {
    bad_input_cases();
}

#[test]
fn mod_write_rejects_bad_input() {
    bad_input_cases();
}

fn sorted_listing() -> Vec<MemoryRecord> {
    let mut files = Files(vec![]);
    files.add("Beta", "project", "b desc", "b body");
    files.add("Alpha", "user", "a desc", "a body");
    files.write("MEMORY.md", "index".to_string());
    files.records()
}

#[test]
fn list_memory_files_sorted_and_skips_index() {
    let records = sorted_listing();
    assert_eq!(records.len(), 2);
    assert_eq!(records[0].filename, "alpha.md");
    assert_eq!(records[0].name, "Alpha");
    assert_eq!(records[1].filename, "beta.md");
    assert!(records.iter().all(|r| r.filename != "MEMORY.md"));
}

#[test]
fn list_records_sorted_and_skips_index() {
    let records = sorted_listing();
    assert_eq!(records.len(), 2);
    assert_eq!(records[0].filename, "alpha.md");
    assert_eq!(records[0].name, "Alpha");
    assert_eq!(records[1].filename, "beta.md");
    assert!(records.iter().all(|r| r.filename != "MEMORY.md"));
}

#[test]
fn list_sorted_by_filename() {
    let mut files = Files(vec![]);
    files.write("beta.md", memory_document("Beta", "project", "b desc", "b body"));
    files.write("alpha.md", memory_document("Alpha", "user", "a desc", "a body"));
    files.write("MEMORY.md", "index".to_string());
    let entries = files.entries();
    assert_eq!(entries.len(), 2);
    assert_eq!(entries[0].filename, "alpha.md");
    assert_eq!(entries[0].name, "Alpha");
    assert_eq!(entries[1].filename, "beta.md");
    assert_eq!(entries[1].name, "Beta");
    assert!(entries.iter().all(|e| e.filename != "MEMORY.md"));
}

#[test]
fn list_empty_dir() {
    assert!(Files(vec![]).entries().is_empty());
}

#[test]
fn write_index_then_read_index() {
    let entries = vec![
        IndexEntry { filename: "a.md".into(), name: "A".into(), description: "desc a".into() },
        IndexEntry { filename: "b.md".into(), name: "B".into(), description: "desc b".into() },
    ];
    let index = index_content(&entries);
    assert!(index.contains("- [A](a.md) - desc a"));
    assert!(index.contains("- [B](b.md) - desc b"));
}

#[test]
fn read_index_empty_when_missing() {
    assert_eq!(MemoryStore::read_memory_index(""), "");
}

#[test]
fn list_falls_back_to_stem_and_first_line() {
    let mut files = Files(vec![]);
    files.write("plain.md", "# Heading\nfirst body line\nsecond".to_string());
    let entries = files.entries();
    assert_eq!(entries.len(), 1);
    assert_eq!(entries[0].filename, "plain.md");
    assert_eq!(entries[0].name, "plain");
    assert_eq!(entries[0].description, "# Heading");
}

#[test]
fn rebuild_index_falls_back_to_stem_and_first_line() {
    let mut files = Files(vec![]);
    files.write("plain.md", "# Heading\nfirst body line\nsecond".to_string());
    let index = MemoryStore::rebuild_memory_index(&files.files());
    assert!(index.contains("- [plain](plain.md) - # Heading"), "index was: {}", index);
}

fn scope_cases() {
    let record = |t: &str, s: &str| {
        json(&format!(
            r#"{{"name":"n","type":"{t}","description":"d","body":"b","scope":"{s}"}}"#
        ))
    };
    assert!(validate_memory_record(&record("user", "persistent"), true).is_some());
    assert!(validate_memory_record(&record("user", "current_task"), true).is_some());
    assert!(validate_memory_record(&record("user", "other"), true).is_none());
    assert!(validate_memory_record(&record("user", "other"), false).is_some());
    assert!(validate_memory_record(&record("bogus", "persistent"), true).is_none());
}

#[test]
fn memory_validate_record_require_scope() {
    scope_cases();
}

#[test]
fn mod_validate_record_require_scope() {
    scope_cases();
}

fn vrec(scope: &str, name: &str, desc: &str, body: &str) -> ValidatedRecord {
    ValidatedRecord {
        name: name.into(),
        mem_type: "user".into(),
        description: desc.into(),
        body: body.into(),
        scope: scope.into(),
    }
}

fn non_persistent_cases() {
    let existing = vec![];
    assert!(!should_store_memory(&vrec("current_task", "n", "d", "b"), &existing));
    assert!(should_store_memory(&vrec("persistent", "n", "d", "b"), &existing));
}

fn temporary_marker_cases() {
    let cases = ["this session", "本次会话", "current task", "暂时"];
    for m in cases {
        assert!(
            !should_store_memory(&vrec("persistent", "n", "d", m), &[]),
            "marker {} should reject",
            m
        );
    }
}

fn duplicate_cases() {
    let existing = vec![MemoryRecord {
        filename: "n.md".into(),
        name: "n".into(),
        description: "same desc".into(),
        mem_type: "user".into(),
        body: "other body".into(),
    }];
    assert!(!should_store_memory(&vrec("persistent", "n", "diff", "diff"), &existing));
    assert!(!should_store_memory(&vrec("persistent", "other", "same desc", "diff"), &existing));
    assert!(!should_store_memory(&vrec("persistent", "other", "diff", "other body"), &existing));
    assert!(should_store_memory(&vrec("persistent", "other", "fresh", "fresh"), &existing));
}

#[test]
fn memory_should_store_rejects_non_persistent() {
    non_persistent_cases();
}

#[test]
fn mod_should_store_rejects_non_persistent() {
    non_persistent_cases();
}

#[test]
fn memory_should_store_rejects_temporary_markers() {
    temporary_marker_cases();
}

#[test]
fn mod_should_store_rejects_temporary_markers() {
    temporary_marker_cases();
}

#[test]
fn memory_should_store_rejects_duplicates() {
    duplicate_cases();
}

#[test]
fn mod_should_store_rejects_duplicates() {
    duplicate_cases();
}

fn array_after_text() {
    let v = extract_json_array("Here are the indices:\n[1, 3]\nDone.");
    assert_eq!(v.len(), 2);
    assert_eq!(v[0].as_i64(), Some(1));
}

#[test]
fn memory_extract_json_array_valid() {
    assert_eq!(extract_json_array("[0, 2]").len(), 2);
}

#[test]
fn mod_extract_json_array_valid() {
    assert_eq!(extract_json_array("[0, 2]").len(), 2);
}

#[test]
fn retrieval_extract_json_array_valid() {
    assert_eq!(extract_json_array("[0, 2]").len(), 2);
}

#[test]
fn memory_extract_json_array_empty_text() {
    assert!(extract_json_array("no array here").is_empty());
}

#[test]
fn mod_extract_json_array_empty_text() {
    assert!(extract_json_array("no array here").is_empty());
}

#[test]
fn retrieval_extract_json_array_empty_text() {
    assert!(extract_json_array("no array here").is_empty());
}

#[test]
fn memory_extract_json_array_with_leading_text() {
    array_after_text();
}

#[test]
fn mod_extract_json_array_with_leading_text() {
    array_after_text();
}

#[test]
fn retrieval_extract_json_array_with_leading_text() {
    array_after_text();
}

fn tokenize_cases() {
    let t = tokenize_query("I prefer tabs 用户偏好 ab");
    assert!(t.contains(&"prefer".to_string()));
    assert!(t.contains(&"tabs".to_string()));
    assert!(t.contains(&"用户偏好".to_string()));
    assert!(!t.contains(&"ab".to_string()));
    assert!(!t.contains(&"i".to_string()));
}

fn keyword_cases() {
    let index = vec![
        IndexEntry {
            filename: "a.md".into(),
            name: "prefer tabs".into(),
            description: "indentation".into(),
        },
        IndexEntry {
            filename: "b.md".into(),
            name: "database config".into(),
            description: "connection".into(),
        },
    ];
    let sel = keyword_memory_selection(&index, "tabs indentation prefer", 5);
    assert_eq!(sel, vec!["a.md".to_string()]);
    let capped = keyword_memory_selection(&index, "tabs database", 1);
    assert_eq!(capped.len(), 1);
}

#[test]
fn memory_tokenize_query_ascii_and_cjk() {
    tokenize_cases();
}

#[test]
fn retrieval_tokenize_query_ascii_and_cjk() {
    tokenize_cases();
}

#[test]
fn memory_keyword_selection_ranks_and_caps() {
    keyword_cases();
}

#[test]
fn retrieval_keyword_selection_ranks_and_caps() {
    keyword_cases();
}

fn recent_text_cases() {
    let msgs: Vec<Message> = (0..5).map(|i| user_text(&format!("turn{}", i))).collect();
    let t = recent_user_text(&msgs, 3);
    assert!(t.contains("turn4") && t.contains("turn2") && !t.contains("turn0"));
    let big = vec![user_text(&"x".repeat(5000))];
    assert!(recent_user_text(&big, 3).chars().count() <= 4000);
}

fn dialogue_cases() {
    let msgs = vec![
        user_text("hello"),
        Message::assistant_content(vec![ContentBlock::Text { text: "hi back".into() }]),
    ];
    let d = dialogue_text(&msgs, 12);
    assert!(d.contains("user: hello"));
    assert!(d.contains("assistant: hi back"));
}

#[test]
fn memory_recent_user_text_caps_turns_and_chars() {
    recent_text_cases();
}

#[test]
fn mod_recent_user_text_caps_turns_and_chars() {
    recent_text_cases();
}

#[test]
fn memory_dialogue_text_prefixes_role() {
    dialogue_cases();
}

#[test]
fn mod_dialogue_text_prefixes_role() {
    dialogue_cases();
}

fn system_sections() {
    let s = build_system("base", "- [n](n.md) - d", "[recalled]");
    assert!(s.starts_with("base\n\n"));
    assert!(s.contains("Memory is selected background knowledge"));
    assert!(s.contains("Memory catalog:\n- [n](n.md) - d"));
    assert!(s.contains("Relevant memory records:\n[recalled]"));
}

#[test]
fn memory_build_system_passthrough_when_empty() {
    assert_eq!(build_system("base", "", ""), "base");
}

#[test]
fn mod_build_system_passthrough_when_empty() {
    assert_eq!(build_system("base", "", ""), "base");
}

#[test]
fn memory_build_system_appends_sections() {
    system_sections();
}

#[test]
fn mod_build_system_appends_sections() {
    system_sections();
}

fn replace_case() {
    let mut files = Files(vec![]);
    files.add("Old One", "user", "old desc", "old body");
    files.add("Old Two", "project", "old2", "old2 body");
    let new = vec![vrec("", "Merged", "merged desc", "merged body")];
    let steps = MemoryStore::replace_records(&files.entries(), &new);
    files.run(steps);
    let records = files.records();
    assert_eq!(records.len(), 1);
    assert_eq!(records[0].name, "Merged");
    let index = files.index();
    assert!(index.contains("Merged"));
    assert!(!index.contains("Old One"));
}

fn restore_case() {
    let mut files = Files(vec![]);
    files.add("Keep A", "user", "desc a", "body a");
    files.add("Keep B", "project", "desc b", "body b");
    let snapshot = files.files();
    files.delete("keep-a.md");
    files.delete("keep-b.md");
    files.write("garbage.md", "trash".to_string());
    let steps = MemoryStore::restore_from_snapshot(&files.entries(), &snapshot);
    files.run(steps);
    let records = files.records();
    let names: Vec<&str> = records.iter().map(|r| r.name.as_str()).collect();
    assert!(names.contains(&"Keep A"));
    assert!(names.contains(&"Keep B"));
    assert!(!names.contains(&"garbage"));
}

/// Runs a consolidation over the files; the write of `broken` fails.
fn consolidate(files: &mut Files, answer: &str, broken: &str) -> Option<usize> {
    let mut run = MemoryStore::begin_consolidation(answer, &files.files())?;
    while let Some(action) = run.next_step() {
        let reply = match action {
            StoreAction::List => StoreReply::Listed(files.entries()),
            StoreAction::Take(StoreStep::Write { filename, .. }) if filename == broken => {
                StoreReply::Failed
            }
            StoreAction::Take(step) => {
                files.run(vec![step]);
                StoreReply::Done
            }
            StoreAction::Index => StoreReply::Done,
        };
        run.replied(reply);
    }
    Some(run.consolidated())
}

const MERGED: &str = r#"[{"name": "Merged", "type": "user", "description": "d", "body": "b"},
    {"name": "Second", "type": "user", "description": "d", "body": "b"}]"#;

#[test]
fn a_consolidation_replaces_all_records() {
    let mut files = Files(vec![]);
    files.add("Old One", "user", "old desc", "old body");
    files.add("Old Two", "project", "old2", "old2 body");
    assert_eq!(consolidate(&mut files, MERGED, ""), Some(2));
    let names: Vec<String> = files.records().into_iter().map(|r| r.name).collect();
    assert_eq!(names, vec!["Merged".to_string(), "Second".to_string()]);
}

#[test]
fn a_failed_consolidation_brings_the_records_back() {
    let mut files = Files(vec![]);
    files.add("Old One", "user", "old desc", "old body");
    files.add("Old Two", "project", "old2", "old2 body");
    files.write("empty.md", String::new());
    assert_eq!(consolidate(&mut files, MERGED, "second.md"), Some(0));
    let records = files.records();
    let names: Vec<&str> = records.iter().map(|r| r.name.as_str()).collect();
    assert_eq!(names, vec!["Old One", "Old Two"]);
    assert_eq!(records[0].body.trim(), "old body");
    assert!(files.files().iter().all(|f| f.filename != "empty.md"));
}

#[test]
fn an_answer_without_records_begins_no_consolidation() {
    let mut files = Files(vec![]);
    files.add("Old One", "user", "old desc", "old body");
    assert_eq!(consolidate(&mut files, "nothing", ""), None);
    let twice = r#"[{"name": "A", "type": "user", "description": "d", "body": "b"},
        {"name": "a", "type": "user", "description": "d", "body": "b"}]"#;
    assert_eq!(consolidate(&mut files, twice, ""), None);
    assert_eq!(files.records().len(), 1);
}

#[test]
fn a_listing_or_an_index_that_fails_ends_without_records() {
    let files: Vec<MemoryFile> = vec![];
    let mut run = MemoryStore::begin_consolidation(MERGED, &files).unwrap();
    assert!(matches!(run.next_step(), Some(StoreAction::List)));
    run.replied(StoreReply::Failed);
    assert!(matches!(run.next_step(), Some(StoreAction::List)));
    run.replied(StoreReply::Failed);
    assert!(matches!(run.next_step(), Some(StoreAction::Index)));
    run.replied(StoreReply::Failed);
    assert!(run.next_step().is_none());
    assert_eq!(run.consolidated(), 0);
    let mut run = MemoryStore::begin_consolidation(MERGED, &files).unwrap();
    for reply in [StoreReply::Listed(vec![]), StoreReply::Done, StoreReply::Done] {
        run.replied(reply);
    }
    assert!(matches!(run.next_step(), Some(StoreAction::Index)));
    run.replied(StoreReply::Failed);
    assert!(matches!(run.next_step(), Some(StoreAction::List)));
    assert_eq!(run.consolidated(), 0);
}

#[test]
fn memory_replace_records_writes_new_set_and_rebuilds_index() {
    replace_case();
}

#[test]
fn mod_replace_records_writes_new_set_and_rebuilds_index() {
    replace_case();
}

#[test]
fn memory_restore_from_snapshot_recovers_originals() {
    restore_case();
}

#[test]
fn mod_restore_from_snapshot_recovers_originals() {
    restore_case();
}

#[test]
fn the_model_selects_by_index_and_no_record_twice() {
    let index = vec![
        IndexEntry { filename: "a.md".into(), name: "A".into(), description: "d".into() },
        IndexEntry { filename: "b.md".into(), name: "B".into(), description: "d".into() },
    ];
    let items = extract_json_array("[1, 1, 7, 0]");
    assert_eq!(
        ModelKeywordRetrieval::select(&items, &index, 5),
        vec!["b.md".to_string(), "a.md".to_string()]
    );
    assert_eq!(ModelKeywordRetrieval::select(&items, &index, 1), vec!["b.md".to_string()]);
    assert!(ModelKeywordRetrieval::request(&index, "tabs").is_some());
    assert!(ModelKeywordRetrieval::request(&[], "tabs").is_none());
}

#[test]
fn what_is_recalled_stays_within_its_limit() {
    let long = "x".repeat(30_000);
    let recalled = MemoryStore::load_memories(&[
        ("a.md".to_string(), Some("short".to_string())),
        ("b.md".to_string(), None),
        ("c.md".to_string(), Some(long)),
    ]);
    assert!(recalled.contains("short"));
    assert!(recalled.chars().count() <= 20_000);
}

#[test]
fn extraction_stores_what_is_new() {
    let answer = r#"[
        {"name":"Tabs","type":"user","description":"prefers tabs","body":"Use tabs.","scope":"persistent"},
        {"name":"Tabs","type":"user","description":"again","body":"Again.","scope":"persistent"},
        {"name":"Now","type":"user","description":"now","body":"Now.","scope":"current_task"}
    ]"#;
    let mut run = MemoryStore::extract_memories(answer, vec![]);
    let mut written = Vec::new();
    while let Some((filename, doc)) = run.next_write() {
        written.push((filename, doc.name));
        run.written(true);
    }
    assert_eq!(written, vec![("tabs.md".to_string(), "Tabs".to_string())]);
    assert_eq!(run.stored(), 1);
}

#[test]
fn consolidation_waits_for_enough_records() {
    let store = MemoryStore::new("/mem".to_string());
    let mut files = Files(vec![]);
    for i in 0..CONSOLIDATE_THRESHOLD {
        assert!(store.consolidation_request(&files.records()).is_none());
        files.add(&format!("Pref {i}"), "user", &format!("desc {i}"), &format!("body {i}"));
    }
    assert!(store.consolidation_request(&files.records()).is_some());
    let read_only = MemoryStore::new_read_only("/mem".to_string());
    assert!(read_only.consolidation_request(&files.records()).is_none());
    assert!(read_only.extraction_request(&[user_text("I prefer tabs")], &[]).is_none());
    let merged = MemoryStore::consolidate_memories(
        r#"[{"name":"All","type":"user","description":"all","body":"all"}]"#,
    );
    assert_eq!(merged.unwrap().len(), 1);
    assert!(MemoryStore::consolidate_memories("nothing").is_none());
}

#[test]
fn what_the_model_does_not_answer_is_recalled_by_keywords() {
    let entry = |file: &str, name: &str, description: &str| IndexEntry {
        filename: file.to_string(),
        name: name.to_string(),
        description: description.to_string(),
    };
    let index = vec![
        entry("a.md", "Indentation", "user prefers tabs"),
        entry("b.md", "Database", "postgres on localhost"),
    ];
    let recalled = |answer: Option<&str>| ModelKeywordRetrieval::recalled(answer, &index, "tabs", 5);
    assert_eq!(recalled(None), vec!["a.md".to_string()]);
    assert_eq!(recalled(Some("no idea")), vec!["a.md".to_string()]);
    assert_eq!(recalled(Some("")), vec!["a.md".to_string()]);
    assert!(recalled(Some("[]")).is_empty());
    assert_eq!(recalled(Some("I choose [1].")), vec!["b.md".to_string()]);
    assert!(ModelKeywordRetrieval::recalled(None, &index, "", 5).is_empty());
}
