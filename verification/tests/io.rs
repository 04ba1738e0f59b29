//! Input and output of the agent, and how lines look on a console.

use bytemaker::io::{ConsoleOutput, Input, MemoryOutput, MockInput, Output, IO};
use bytemaker::json::Json;
use bytemaker::render::input::permission_granted;
use bytemaker::render::{logo_art, size_words, tint, Coordinator, TextBackend, Tint};

fn convert(v: serde_json::Value) -> Json {
    match v {
        serde_json::Value::Null => Json::Null,
        serde_json::Value::Bool(b) => Json::Bool(b),
        serde_json::Value::Number(n) => match (n.as_i64(), n.as_u64()) {
            (Some(i), _) => Json::Int(i),
            (None, Some(u)) => Json::UInt(u),
            (None, None) => Json::Real(n.to_string()),
        },
        serde_json::Value::String(s) => Json::Text(s),
        serde_json::Value::Array(a) => Json::Array(a.into_iter().map(convert).collect()),
        serde_json::Value::Object(o) => {
            Json::Object(o.into_iter().map(|(k, v)| (k, convert(v))).collect())
        }
    }
}

fn json(text: &str) -> Json {
    convert(serde_json::from_str(text).expect("valid JSON"))
}

fn plain(s: &str) -> String {
    let mut out = String::new();
    let mut skipping = false;
    for c in s.chars() {
        if c == '\u{1b}' {
            skipping = true;
        } else if skipping {
            if c == 'm' {
                skipping = false;
            }
        } else {
            out.push(c);
        }
    }
    out
}

#[test]
fn memory_output_collects_lines() {
    let mut output = MemoryOutput::new();
    output.banner("hello");
    output.emit("world");
    output.error("error");

    let lines = output.lines();
    assert_eq!(lines.len(), 3);
    assert!(lines[0].contains("hello"));
    assert_eq!(lines[1], "world");
    assert!(lines[2].contains("error"));
}

#[test]
fn memory_output_clear() {
    let mut output = MemoryOutput::new();
    output.emit("a");
    output.emit("b");
    assert_eq!(output.lines().len(), 2);

    output.clear();
    assert!(output.lines().is_empty());
}

#[test]
fn mock_input_fifo() {
    let mut input = MockInput::new();
    input.push_read(None);
    input.push_read(Some("second".into()));
    input.push_read(Some("first".into()));

    assert_eq!(input.read_line(), Some("first".into()));
    assert_eq!(input.read_line(), Some("second".into()));
    assert_eq!(input.read_line(), None);
}

#[test]
fn mock_input_read_permission() {
    let mut input = MockInput::new();
    input.push_permission(false);
    input.push_permission(true);

    assert!(input.read_permission());
    assert!(!input.read_permission());
    assert!(!input.read_permission());
}

#[test]
fn io_ask_permission_renders_then_reads() {
    let mut io = IO::memory();
    io.input.push_permission(false);
    io.input.push_permission(true);

    assert!(io.ask_permission("r1", "n1", &json(r#"{"k": "v"}"#)));
    assert!(!io.ask_permission("r2", "n2", &json("{}")));
    assert!(!io.ask_permission("r3", "n3", &json("{}")));

    let lines = io.output.lines();
    assert_eq!(lines.len(), 3);
    assert!(lines[0].contains("[PERMISSION]") && lines[0].contains("r1") && lines[0].contains("n1"));
    assert!(lines[1].contains("r2") && lines[1].contains("n2"));
    assert!(lines[2].contains("r3") && lines[2].contains("n3"));
}

#[test]
fn io_memory_creates_pair() {
    let mut mem_output = MemoryOutput::new();
    let _mock_input = MockInput::new();

    mem_output.emit("test");
    assert_eq!(mem_output.lines()[0], "test");
}

#[test]
fn a_console_shows_each_kind_of_line() {
    let mut out = ConsoleOutput::new(Coordinator::new(TextBackend::new()));
    out.emit("plain");
    out.status("busy");
    out.error("broken");
    out.heading("Todos", "none");
    out.permission("why", "command", &json(r#"{"command": "ls"}"#));
    out.blocked("rm");
    let text = plain(out.coordinator.backend.text());
    assert!(text.starts_with("plain\n"));
    for word in ["busy", "broken", "Todos", "none", "why", "command", "rm"] {
        assert!(text.contains(word), "{word} is missing in {text}");
    }
}

#[test]
fn a_short_tool_output_is_one_line() {
    let mut c = Coordinator::new(TextBackend::new());
    c.render_tool_output("command", "a\n  b", false);
    assert_eq!(c.backend.text(), "↳ command 结果 (5 B): a   b\n");
}

#[test]
fn a_long_tool_output_is_cut() {
    let mut c = Coordinator::new(TextBackend::new());
    c.render_tool_output("command", &"x".repeat(300), false);
    assert_eq!(
        c.backend.text(),
        format!("↳ command 结果 (300 B): {}…\n  (已截断，共 300 字符)\n", "x".repeat(200))
    );
    c.render_tool_output("command", &"x".repeat(2048), false);
    assert!(c.backend.text().contains("(2.0 KB)"));
}

#[test]
fn the_logo_is_shown_whole() {
    let mut c = Coordinator::new(TextBackend::new());
    c.logo();
    let art = logo_art();
    let text = plain(c.backend.text());
    for line in art.lines() {
        assert!(text.contains(line.trim_end()), "{line} is missing");
    }
}

#[test]
fn without_colour_a_line_is_shown_as_it_is() {
    let mut c = Coordinator::new(TextBackend::new());
    c.status_with("ready", false);
    assert_eq!(c.backend.text(), "ready\n");
    let mut c = Coordinator::new(TextBackend::new());
    c.logo_with(false);
    assert!(!c.backend.text().contains('\u{1b}'));
    assert_eq!(tint("x", Tint::Red, false), "x");
    let shown = tint("x", Tint::Red, true);
    assert!(shown == "x" || shown == "\u{1b}[31mx\u{1b}[0m", "got: {shown:?}");
}

#[test]
fn only_a_clear_yes_grants() {
    assert!(permission_granted(Some("y")));
    assert!(permission_granted(Some(" Y ")));
    assert!(!permission_granted(Some("yes")));
    assert!(!permission_granted(Some("no")));
    assert!(!permission_granted(Some("")));
    assert!(!permission_granted(None));
}

#[test]
fn sizes_are_rounded_to_tenths() {
    assert_eq!(size_words(0), "0 B");
    assert_eq!(size_words(1023), "1023 B");
    assert_eq!(size_words(1024), "1.0 KB");
    assert_eq!(size_words(1280), "1.2 KB");
    assert_eq!(size_words(1024 * 1024), "1.0 MB");
    for n in 1024..60_000usize {
        assert_eq!(size_words(n), format!("{:.1} KB", n as f64 / 1024.0));
    }
    for i in 0..60_000usize {
        let n = 1024 * 1024 + i * 4099;
        assert_eq!(size_words(n), format!("{:.1} MB", n as f64 / (1024.0 * 1024.0)));
    }
    for i in 0..400usize {
        let n = 1024 * 1024 + i * 26214 + i / 2;
        assert_eq!(size_words(n), format!("{:.1} MB", n as f64 / (1024.0 * 1024.0)));
    }
}

#[test]
fn colours_follow_the_switch() {
    colored::control::set_override(true);
    let mut c = Coordinator::new(TextBackend::new());
    c.status("busy");
    c.error("broken");
    c.prompt();
    c.render_tool_output("command", "x", true);
    assert_eq!(
        c.backend.text(),
        "\u{1b}[33mbusy\u{1b}[0m\n\u{1b}[31mbroken\u{1b}[0m\n\u{1b}[36m >> \u{1b}[0m\
         \u{1b}[2m↳ command 结果 (1 B): \u{1b}[0mx\n"
    );
    let mut c = Coordinator::new(TextBackend::new());
    c.status("a\u{1b}[0mb");
    assert_eq!(c.backend.text(), "\u{1b}[33ma\u{1b}[0m\u{1b}[33mb\u{1b}[0m\n");
    colored::control::set_override(false);
    let mut c = Coordinator::new(TextBackend::new());
    c.status("busy");
    c.prompt();
    assert_eq!(c.backend.text(), "busy\n >> ");
}
