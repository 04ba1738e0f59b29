//! Skills: their heads, the catalog and loading by name.

use bytemaker::frontmatter::split_frontmatter;
use bytemaker::skills::{
    normalize_description, parse_frontmatter, read_skill, SkillFrontmatter, SkillLoader,
    SkillManifest,
};

fn text_field(v: &serde_yaml::Value, key: &str) -> Result<Option<String>, ()> {
    match v.get(key) {
        None | Some(serde_yaml::Value::Null) => Ok(None),
        Some(serde_yaml::Value::String(s)) => Ok(Some(s.clone())),
        Some(_) => Err(()),
    }
}

/// The head of the text, where its YAML can be read.
fn yaml_head(text: &str) -> Option<SkillFrontmatter> {
    let (block, _) = split_frontmatter(text)?;
    let v: serde_yaml::Value = serde_yaml::from_str(&block).ok()?;
    let name = text_field(&v, "name").ok()?;
    let description = text_field(&v, "description").ok()?;
    Some(SkillFrontmatter { name, description })
}

fn parse(text: &str) -> (SkillFrontmatter, String) {
    parse_frontmatter(text, yaml_head(text))
}

fn manifest(dir_name: &str, content: &str) -> SkillManifest {
    SkillManifest {
        dir_name: dir_name.to_string(),
        content: content.to_string(),
        parsed: yaml_head(content),
    }
}

#[test]
fn parse_frontmatter_name_and_desc() {
    let text = "---\nname: code-review\ndescription: Do code reviews.\n---\n# Code Review\nbody";
    let (fm, body) = parse(text);
    assert_eq!(fm.name.as_deref(), Some("code-review"));
    assert_eq!(fm.description.as_deref(), Some("Do code reviews."));
    assert_eq!(body, "# Code Review\nbody");
}

#[test]
fn parse_frontmatter_block_scalar_description() {
    let text = "---\nname: agent-builder\ndescription: |\n  Design agents.\n  Use when users ask.\n---\nbody";
    let (fm, body) = parse(text);
    assert_eq!(fm.name.as_deref(), Some("agent-builder"));
    let norm = normalize_description(fm.description.as_deref().unwrap_or(""));
    assert_eq!(norm, "Design agents. Use when users ask.");
    assert_eq!(body, "body");
}

#[test]
fn skills_parse_frontmatter_missing_falls_back_to_full_text() {
    let text = "# Just a heading\nno frontmatter here";
    let (fm, body) = parse(text);
    assert!(fm.name.is_none());
    assert!(fm.description.is_none());
    assert_eq!(body, text);
}

#[test]
fn skills_parse_frontmatter_malformed_yaml_falls_back() {
    let text = "---\nname: : :\n---\nbody";
    let (fm, body) = parse(text);
    assert!(fm.name.is_none());
    assert!(body.starts_with("---"));
}

#[test]
fn parse_frontmatter_extra_fields_ignored() {
    let text = "---\nname: pdf\ndescription: Process PDFs.\nversion: 1.0\nauthor: bob\n---\nbody";
    let (fm, _) = parse(text);
    assert_eq!(fm.name.as_deref(), Some("pdf"));
    assert_eq!(fm.description.as_deref(), Some("Process PDFs."));
}

#[test]
fn normalize_strips_hash_and_collapses_whitespace() {
    assert_eq!(normalize_description("#  Code   Review "), "Code Review");
    assert_eq!(normalize_description("  hello\nworld  "), "hello world");
    assert_eq!(normalize_description(""), "");
}

#[test]
fn scan_collects_skills() {
    let loader = SkillLoader::scan(&[
        manifest(
            "code-review",
            "---\nname: code-review\ndescription: Do code reviews.\n---\n# Code Review",
        ),
        manifest("pdf", "---\nname: pdf\ndescription: Process PDFs.\n---\n# PDF"),
    ]);
    assert_eq!(loader.len(), 2);
    let cat = loader.catalog();
    assert!(cat.contains("- code-review: Do code reviews."));
    assert!(cat.contains("- pdf: Process PDFs."));
}

#[test]
fn scan_uses_dir_name_when_frontmatter_name_absent() {
    let m = manifest("mcp-builder", "---\ndescription: Build MCP servers.\n---\n# MCP Builder");
    let skill = read_skill(&m);
    assert_eq!(skill.name, "mcp-builder");
    assert_eq!(skill.description, "Build MCP servers.");
    let loader = SkillLoader::scan(&[m]);
    assert!(loader.load("mcp-builder").contains("# MCP Builder"), "keyed by dir name");
}

#[test]
fn scan_uses_first_body_line_when_description_absent() {
    let m = manifest("misc", "---\nname: misc\n---\n# This is the heading\nbody");
    assert_eq!(read_skill(&m).description, "This is the heading");
}

#[test]
fn scan_missing_dir_yields_empty() {
    let loader = SkillLoader::scan(&[]);
    assert_eq!(loader.len(), 0);
    assert!(loader.is_empty());
    assert_eq!(loader.catalog(), "");
}

#[test]
fn load_returns_full_content_on_hit() {
    let content = "---\nname: code-review\ndescription: Do code reviews.\n---\n# Code Review\n## Checklist\n- security";
    let loader = SkillLoader::scan(&[manifest("code-review", content)]);
    assert_eq!(loader.load("code-review"), content);
}

#[test]
fn load_returns_error_listing_available_on_miss() {
    let loader = SkillLoader::scan(&[
        manifest("pdf", "---\nname: pdf\ndescription: Process PDFs.\n---\nbody"),
        manifest(
            "code-review",
            "---\nname: code-review\ndescription: Do code reviews.\n---\nbody",
        ),
    ]);
    let got = loader.load("nonexistent");
    assert!(got.starts_with("Error: Unknown skill 'nonexistent'."));
    assert!(got.contains("Available: code-review, pdf"));
}

#[test]
fn load_miss_when_no_skills_says_none() {
    let loader = SkillLoader::scan(&[]);
    let got = loader.load("whatever");
    assert!(got.contains("Available: none"));
}

#[test]
fn duplicate_name_later_overwrites() {
    let loader = SkillLoader::scan(&[
        manifest("a", "---\nname: same\ndescription: first.\n---\nfirst body"),
        manifest("b", "---\nname: same\ndescription: second.\n---\nsecond body"),
    ]);
    assert_eq!(loader.len(), 1);
    let cat = loader.catalog();
    assert!(
        cat.contains("first.") || cat.contains("second."),
        "catalog should contain one of the two: {}",
        cat
    );
    assert!(loader.load("same").contains("second body"));
}
