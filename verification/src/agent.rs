//! The agent loop: what happens in a turn, in what order, and when the loop ends.
//!
//! In each turn the results of background tasks and the scheduled prompts are delivered, the model is
//! called, and its tool calls are run. The calls themselves are made elsewhere: [`LoopState`] takes
//! what came back of each, keeps the conversation, and says what is to be done next.

use vstd::prelude::*;

use crate::background_tasks::manager::{notice_blocks, BackgroundManager};
use crate::compact::MAX_REACTIVE_RETRIES;
use crate::config::Config;
use crate::cron_scheduler::{jobs_view, CronJob, CronJobV};
use crate::domain::message::{
    block_texts, blocks_view, dup_blocks, is_call, messages_view, role_word, some_text, tells,
    text_parts, user_text_v, BlockV, ContentBlock, Message, MessageV, MessagesResponse, ResponseV,
    Role, Usage,
};
use crate::error::{bridged, AgentError};
use crate::goal::{clear_alias, is_clear_alias, GoalAction, StopDecision, StopV};
use crate::hooks::{assemble_post_tool_messages, post_tool_messages};
use crate::json::{json_compact, json_pretty, json_pretty_text, json_text, Json, JsonV};
use crate::loop_laws::{lemma_final_text, lemma_plan_gate};
use crate::memory::{build_system, system_with_memory};
use crate::providers::CallResult;
use crate::random::random_u64;
use crate::select::{lemma_selects_nothing, lemma_selects_push, selects};
use crate::text::{
    ascii_lower, char_count, chars_of, concat2, concat3, decimal, decimal_u64, decimal_usize,
    eq_ignore_ascii_case, first_chars, join, join_path, joined, lines, owned, path_in,
    same_ignoring_ascii_case, split_lines, str_eq, str_starts_with, substring, take_chars, texts,
    to_ascii_lowercase, trim, trim_end, trimmed, trimmed_end,
};
use crate::tools::AgentKind;

verus! {

broadcast use vstd::string::group_string_axioms;

/// The number of tokens that a response may have.
pub const MAX_TOKENS: u32 = 8000;

/// The system prompt of a subagent.
pub const SUB_SYSTEM: &'static str =
    "You are a focused coding agent. Complete your task efficiently. Use tools as needed. Return a concise summary of your work.";

/// How the loop ended.
#[derive(Clone, Copy, Debug, PartialEq, Eq, Structural)]
pub enum LoopOutcome {
    /// The model had nothing more to do.
    Completed,
    /// The turns are used up.
    MaxTurnsReached,
    /// The user interrupted.
    Cancelled,
}

/// What the agent of the user is made of.
#[derive(Debug)]
pub struct AgentConfig {
    pub api_key: String,
    pub base_url: String,
    pub model: String,
    pub workdir: String,
    pub skills_dir: String,
}

impl AgentConfig {
    /// The agent that a configuration describes.
    pub fn from_config(c: Config) -> (r: Self)
        ensures
            r.api_key == c.api_key,
            r.base_url == c.base_url,
            r.model == c.model,
            r.workdir == c.workdir,
            r.skills_dir == c.skills_dir,
    {
        AgentConfig {
            api_key: c.api_key,
            base_url: c.base_url,
            model: c.model,
            workdir: c.workdir,
            skills_dir: c.skills_dir,
        }
    }
}

// ---- agents and their parts ----

/// What tells the agents apart.
#[derive(Debug)]
pub struct AgentProfile {
    pub kind: AgentKind,
    /// The name under which the agent claims tasks.
    pub owner: String,
    pub max_turns: usize,
    pub base_system: String,
    /// Where transcripts go.
    pub transcripts: String,
    /// Where large tool outputs go.
    pub tool_results: String,
    pub memory_dir: String,
    /// Memory is recalled and never written.
    pub memory_read_only: bool,
    /// Scheduled prompts are delivered.
    pub has_cron: bool,
    /// A goal can be set.
    pub has_goal: bool,
    /// The agent belongs to a team.
    pub has_team: bool,
}

/// Where the transcripts of an agent with this directory go.
pub open spec fn transcripts_in(dir: Seq<char>) -> Seq<char> {
    path_in(dir, ".transcripts"@)
}

/// Where the large tool outputs of an agent with this directory go.
pub open spec fn tool_results_in(dir: Seq<char>) -> Seq<char> {
    path_in(path_in(dir, ".task_outputs"@), "tool-results"@)
}

fn tool_results_dir(dir: &str) -> (r: String)
    ensures
        r@ == tool_results_in(dir@),
{
    join_path(join_path(dir, ".task_outputs").as_str(), "tool-results")
}

/// The directory of the subagent with the number.
pub open spec fn subagent_dir(workdir: Seq<char>, n: u64) -> Seq<char> {
    path_in(path_in(workdir, ".subagents"@), "subagent_"@ + decimal(n as nat))
}

/// The directory of the named teammate.
pub open spec fn teammate_dir(workdir: Seq<char>, name: Seq<char>) -> Seq<char> {
    path_in(path_in(workdir, ".teammates"@), name)
}

impl AgentProfile {
    /// The agent that talks with the user.
    pub fn lead(workdir: &str, base_system: &str) -> (r: Self)
        ensures
            r.kind == AgentKind::Lead,
            r.owner@ == "agent"@,
            r.max_turns == usize::MAX,
            r.base_system@ == base_system@,
            r.transcripts@ == transcripts_in(workdir@),
            r.tool_results@ == tool_results_in(workdir@),
            r.memory_dir@ == path_in(workdir@, ".memory"@),
            !r.memory_read_only && r.has_cron && r.has_goal && r.has_team,
    {
        AgentProfile {
            kind: AgentKind::Lead,
            owner: owned("agent"),
            max_turns: usize::MAX,
            base_system: owned(base_system),
            transcripts: join_path(workdir, ".transcripts"),
            tool_results: tool_results_dir(workdir),
            memory_dir: join_path(workdir, ".memory"),
            memory_read_only: false,
            has_cron: true,
            has_goal: true,
            has_team: true,
        }
    }

    /// A nested agent with a bounded number of turns and directories of its own.
    pub fn child_agent_numbered(workdir: &str, n: u64, max_turns: usize, sub_system: &str) -> (r:
        Self)
        ensures
            r.kind == AgentKind::Subagent,
            r.owner@ == "agent"@,
            r.max_turns == max_turns,
            r.base_system@ == sub_system@,
            r.transcripts@ == transcripts_in(subagent_dir(workdir@, n)),
            r.tool_results@ == tool_results_in(subagent_dir(workdir@, n)),
            r.memory_dir@ == path_in(workdir@, ".memory"@),
            r.memory_read_only && !r.has_cron && !r.has_goal && !r.has_team,
    {
        let name = concat2("subagent_", decimal_u64(n).as_str());
        let dir = join_path(join_path(workdir, ".subagents").as_str(), name.as_str());
        AgentProfile {
            kind: AgentKind::Subagent,
            owner: owned("agent"),
            max_turns,
            base_system: owned(sub_system),
            transcripts: join_path(dir.as_str(), ".transcripts"),
            tool_results: tool_results_dir(dir.as_str()),
            memory_dir: join_path(workdir, ".memory"),
            memory_read_only: true,
            has_cron: false,
            has_goal: false,
            has_team: false,
        }
    }

    /// A nested agent with a random number.
    pub fn child_agent(workdir: &str, max_turns: usize, sub_system: &str) -> (r: Self)
        ensures
            r.kind == AgentKind::Subagent,
            r.owner@ == "agent"@,
            r.max_turns == max_turns,
            r.base_system@ == sub_system@,
            exists|n: u64|
                r.transcripts@ == transcripts_in(#[trigger] subagent_dir(workdir@, n))
                    && r.tool_results@ == tool_results_in(subagent_dir(workdir@, n)),
            r.memory_dir@ == path_in(workdir@, ".memory"@),
            r.memory_read_only && !r.has_cron && !r.has_goal && !r.has_team,
    {
        AgentProfile::child_agent_numbered(workdir, random_u64(), max_turns, sub_system)
    }

    /// A persistent agent of the team: no turn limit, directories of its own.
    pub fn child_teammate(workdir: &str, name: &str, system: &str) -> (r: Self)
        ensures
            r.kind == AgentKind::Teammate,
            r.owner@ == name@,
            r.max_turns == usize::MAX,
            r.base_system@ == system@,
            r.transcripts@ == transcripts_in(teammate_dir(workdir@, name@)),
            r.tool_results@ == tool_results_in(teammate_dir(workdir@, name@)),
            r.memory_dir@ == path_in(workdir@, ".memory"@),
            r.memory_read_only && !r.has_cron && !r.has_goal && r.has_team,
    {
        let dir = join_path(join_path(workdir, ".teammates").as_str(), name);
        AgentProfile {
            kind: AgentKind::Teammate,
            owner: owned(name),
            max_turns: usize::MAX,
            base_system: owned(system),
            transcripts: join_path(dir.as_str(), ".transcripts"),
            tool_results: tool_results_dir(dir.as_str()),
            memory_dir: join_path(workdir, ".memory"),
            memory_read_only: true,
            has_cron: false,
            has_goal: false,
            has_team: true,
        }
    }

    /// An agent for an evaluation: nothing that would call the model by itself.
    pub fn isolated(workdir: &str, base_system: &str, max_turns: usize) -> (r: Self)
        ensures
            r.kind == AgentKind::Lead,
            r.owner@ == "agent"@,
            r.max_turns == max_turns,
            r.base_system@ == base_system@,
            r.transcripts@ == transcripts_in(workdir@),
            r.tool_results@ == tool_results_in(workdir@),
            r.memory_dir@ == path_in(workdir@, ".memory"@),
            r.memory_read_only && !r.has_cron && !r.has_goal && !r.has_team,
    {
        AgentProfile {
            kind: AgentKind::Lead,
            owner: owned("agent"),
            max_turns,
            base_system: owned(base_system),
            transcripts: join_path(workdir, ".transcripts"),
            tool_results: tool_results_dir(workdir),
            memory_dir: join_path(workdir, ".memory"),
            memory_read_only: true,
            has_cron: false,
            has_goal: false,
            has_team: false,
        }
    }
}

// ---- system prompt ----

/// The system prompt without time and memory.
pub open spec fn base_system_text(
    catalog: Seq<char>,
    workdir: Seq<char>,
    os: Seq<char>,
) -> Seq<char> {
    let opening = "You are a coding agent at "@ + workdir + " on "@ + os
        + ". Before starting any multi-step task, use todo_write to plan your steps. Update status as you go. You can use tools as needed."@;
    let base = if catalog.len() == 0 {
        opening
    } else {
        opening + "\n\nSkills available:\n"@ + catalog
            + "\n\nUse load_skill to read the full instructions when a skill applies."@
    };
    base
        + "\n\nWhen you run a verification command, write the command and its result into the conversation so an independent evaluator can check completion."@
}

/// The system prompt without time and memory.
pub fn build_base_system(catalog: &str, workdir: &str, os: &str) -> (r: String)
    ensures
        r@ == base_system_text(catalog@, workdir@, os@),
{
    let place = concat3("You are a coding agent at ", workdir, " on ");
    let opening = concat3(
        place.as_str(),
        os,
        ". Before starting any multi-step task, use todo_write to plan your steps. Update status as you go. You can use tools as needed.",
    );
    let base = if char_count(catalog) == 0 {
        opening
    } else {
        let skills = concat3(opening.as_str(), "\n\nSkills available:\n", catalog);
        concat2(
            skills.as_str(),
            "\n\nUse load_skill to read the full instructions when a skill applies.",
        )
    };
    concat2(
        base.as_str(),
        "\n\nWhen you run a verification command, write the command and its result into the conversation so an independent evaluator can check completion.",
    )
}

/// The system prompt of a turn.
pub open spec fn turn_system_text(
    base: Seq<char>,
    time: Seq<char>,
    mcp: Seq<char>,
    index: Seq<char>,
    recalled: Seq<char>,
) -> Seq<char> {
    let timed = base + "\n\nCurrent time: "@ + time;
    system_with_memory(
        if mcp.len() == 0 {
            timed
        } else {
            timed + "\n\n"@ + mcp
        },
        index,
        recalled,
    )
}

/// The system prompt of a turn: the base, the time, what the connected servers add, and memory.
pub fn turn_system(base: &str, time: &str, mcp: &str, index: &str, recalled: &str) -> (r: String)
    ensures
        r@ == turn_system_text(base@, time@, mcp@, index@, recalled@),
{
    let timed = concat3(base, "\n\nCurrent time: ", time);
    if char_count(mcp) == 0 {
        build_system(timed.as_str(), index, recalled)
    } else {
        build_system(concat3(timed.as_str(), "\n\n", mcp).as_str(), index, recalled)
    }
}

// ---- final text ----

/// The text of a response, where it has any.
pub open spec fn final_text(content: Seq<BlockV>) -> Option<Seq<char>> {
    if block_texts(content).len() == 0 {
        None
    } else {
        Some(join(block_texts(content), "\n"@))
    }
}

/// The text of a response, where it has any.
pub fn extract_final_text(content: &[ContentBlock]) -> (r: Option<String>)
    ensures
        r.deep_view() == final_text(blocks_view(content@)),
{
    let parts = text_parts(content);
    assert(texts(parts@).len() == parts@.len());
    if parts.len() == 0 {
        None
    } else {
        Some(joined(parts.as_slice(), "\n"))
    }
}

/// What the last message of the assistant holds; nothing where there is none.
pub open spec fn last_answer(messages: Seq<MessageV>) -> Seq<BlockV>
    decreases messages.len(),
{
    if messages.len() == 0 {
        Seq::empty()
    } else if messages.last().role == Role::Assistant {
        messages.last().content
    } else {
        last_answer(messages.drop_last())
    }
}

/// The text of the last message of the assistant, where it has any.
pub fn extract_final_text_from(messages: &[Message]) -> (r: Option<String>)
    ensures
        r.deep_view() == final_text(last_answer(messages_view(messages@))),
{
    let ghost all = messages_view(messages@);
    let mut i: usize = messages.len();
    assert(all.take(i as int) =~= all);
    while i > 0
        invariant
            i <= messages@.len(),
            all == messages_view(messages@),
            last_answer(all) == last_answer(all.take(i as int)),
        decreases i,
    {
        let m = &messages[i - 1];
        assert(all.take(i as int).last() == m@);
        assert(all.take(i as int).drop_last() =~= all.take(i - 1));
        if m.role == Role::Assistant {
            return extract_final_text(m.content.as_slice());
        }
        i -= 1;
    }
    let none: Vec<ContentBlock> = Vec::new();
    assert(blocks_view(none@) =~= Seq::empty());
    extract_final_text(none.as_slice())
}

/// A text as the log shows it.
pub open spec fn log_preview(s: Seq<char>) -> Seq<char> {
    if s.len() <= 100 {
        s
    } else {
        first_chars(s, 100) + "… (+"@ + decimal((s.len() - 100) as nat) + " chars)"@
    }
}

fn preview(s: &str) -> (r: String)
    ensures
        r@ == log_preview(s@),
{
    let n: usize = char_count(s);
    if n <= 100 {
        owned(s)
    } else {
        let head = concat2(take_chars(s, 100).as_str(), "… (+");
        concat3(head.as_str(), decimal_usize(n - 100).as_str(), " chars)")
    }
}

/// The line of a block in the log.
pub open spec fn block_log(b: BlockV) -> Seq<char> {
    match b {
        BlockV::Text { text } => " text: "@ + log_preview(text) + "\n"@,
        BlockV::ToolCall { id, name, input } => " tool_call("@ + id + ": "@ + name + "): "@
            + log_preview(json_compact(input)) + "\n"@,
        BlockV::ToolOutput { call_id, content } => "   tool_output("@ + call_id + ": "@ + decimal(
            content.len(),
        ) + " chars): "@ + log_preview(content) + "\n"@,
    }
}

/// The lines of blocks in the log.
pub open spec fn blocks_log(blocks: Seq<BlockV>) -> Seq<char>
    decreases blocks.len(),
{
    if blocks.len() == 0 {
        Seq::empty()
    } else {
        blocks_log(blocks.drop_last()) + block_log(blocks.last())
    }
}

/// The lines of messages in the log.
pub open spec fn messages_log(messages: Seq<MessageV>) -> Seq<char>
    decreases messages.len(),
{
    if messages.len() == 0 {
        Seq::empty()
    } else {
        let m = messages.last();
        messages_log(messages.drop_last()) + (" ["@ + decimal((messages.len() - 1) as nat)
            + "] role="@ + role_word(m.role) + " blocks="@ + decimal(m.content.len()) + "\n"@)
            + blocks_log(m.content)
    }
}

fn log_block(b: &ContentBlock) -> (r: String)
    ensures
        r@ == block_log(b@),
{
    match b {
        ContentBlock::Text { text } => concat3(" text: ", preview(text.as_str()).as_str(), "\n"),
        ContentBlock::ToolCall { id, name, input } => {
            let head = concat3(" tool_call(", id.as_str(), ": ");
            let call = concat3(head.as_str(), name.as_str(), "): ");
            concat3(call.as_str(), preview(json_text(input).as_str()).as_str(), "\n")
        },
        ContentBlock::ToolOutput { call_id, content } => {
            let head = concat3("   tool_output(", call_id.as_str(), ": ");
            let n: usize = char_count(content.as_str());
            let sized = concat3(head.as_str(), decimal_usize(n).as_str(), " chars): ");
            concat3(sized.as_str(), preview(content.as_str()).as_str(), "\n")
        },
    }
}

/// The messages of a request as the log shows them; long texts are cut.
pub fn format_messages_for_log(messages: &[Message]) -> (r: String)
    ensures
        r@ == trim_end(messages_log(messages_view(messages@))),
{
    let ghost all = messages_view(messages@);
    let mut out = String::new();
    assert(out@ =~= messages_log(all.take(0)));
    let mut i: usize = 0;
    while i < messages.len()
        invariant
            i <= messages@.len(),
            all == messages_view(messages@),
            out@ == messages_log(all.take(i as int)),
        decreases messages@.len() - i,
    {
        let m = &messages[i];
        assert(all.take(i + 1).drop_last() =~= all.take(i as int));
        assert(all.take(i + 1).last() == m@);
        let place = concat3(" [", decimal_usize(i).as_str(), "] role=");
        let head = concat3(place.as_str(), m.role.as_str(), " blocks=");
        let n: usize = m.content.len();
        let line = concat3(head.as_str(), decimal_usize(n).as_str(), "\n");
        let ghost blocks = blocks_view(m.content@);
        let mut body = String::new();
        assert(body@ =~= blocks_log(blocks.take(0)));
        let mut j: usize = 0;
        while j < n
            invariant
                j <= n,
                n == m.content@.len(),
                blocks == blocks_view(m.content@),
                body@ == blocks_log(blocks.take(j as int)),
            decreases n - j,
        {
            assert(blocks.take(j + 1).drop_last() =~= blocks.take(j as int));
            assert(blocks.take(j + 1).last() == m.content@[j as int]@);
            body = concat2(body.as_str(), log_block(&m.content[j]).as_str());
            j += 1;
        }
        assert(blocks.take(n as int) =~= blocks);
        out = concat3(out.as_str(), line.as_str(), body.as_str());
        i += 1;
    }
    assert(all.take(messages@.len() as int) =~= all);
    trimmed_end(out.as_str())
}

// ---- what a response shows ----

/// The lines that show a block of a response.
pub open spec fn shown_block(b: BlockV) -> Seq<Seq<char>> {
    match b {
        BlockV::Text { text } => seq![text],
        BlockV::ToolCall { id: _, name, input } => {
            let head = seq!["⚙ "@ + name];
            if input is Null {
                head
            } else {
                head + lines(json_pretty(input)).map_values(|l: Seq<char>| "  "@ + l)
            }
        },
        BlockV::ToolOutput { .. } => Seq::empty(),
    }
}

/// The lines that show a response.
pub open spec fn shown_lines(content: Seq<BlockV>) -> Seq<Seq<char>>
    decreases content.len(),
{
    if content.len() == 0 {
        Seq::empty()
    } else {
        shown_lines(content.drop_last()) + shown_block(content.last())
    }
}

fn indent(ls: &[String]) -> (r: Vec<String>)
    ensures
        texts(r@) == texts(ls@).map_values(|l: Seq<char>| "  "@ + l),
{
    let ghost goal = texts(ls@).map_values(|l: Seq<char>| "  "@ + l);
    let mut out: Vec<String> = Vec::new();
    let mut i: usize = 0;
    while i < ls.len()
        invariant
            i <= ls@.len(),
            goal == texts(ls@).map_values(|l: Seq<char>| "  "@ + l),
            texts(out@) == goal.take(i as int),
        decreases ls@.len() - i,
    {
        let ghost before = texts(out@);
        out.push(concat2("  ", ls[i].as_str()));
        assert(texts(out@) =~= before.push(goal[i as int]));
        assert(goal.take(i + 1) =~= before.push(goal[i as int]));
        i += 1;
    }
    assert(goal.take(ls@.len() as int) =~= goal);
    out
}

/// The lines that show a response: its texts, and its tool calls with their inputs.
pub fn response_lines(content: &[ContentBlock]) -> (r: Vec<String>)
    ensures
        texts(r@) == shown_lines(blocks_view(content@)),
{
    let ghost all = blocks_view(content@);
    let mut out: Vec<String> = Vec::new();
    assert(texts(out@) =~= shown_lines(all.take(0)));
    let mut i: usize = 0;
    while i < content.len()
        invariant
            i <= content@.len(),
            all == blocks_view(content@),
            texts(out@) == shown_lines(all.take(i as int)),
        decreases content@.len() - i,
    {
        let ghost before = texts(out@);
        assert(all.take(i + 1).drop_last() =~= all.take(i as int));
        assert(all.take(i + 1).last() == content@[i as int]@);
        match &content[i] {
            ContentBlock::Text { text } => {
                out.push(text.clone());
                assert(texts(out@) =~= before + seq![text@]);
            },
            ContentBlock::ToolCall { id: _, name, input } => {
                let head = concat2("⚙ ", name.as_str());
                out.push(head);
                assert(texts(out@) =~= before + seq![head@]);
                match input {
                    Json::Null => {},
                    _ => {
                        let pretty = json_pretty_text(input);
                        let mut more = indent(split_lines(pretty.as_str()).as_slice());
                        let ghost tail = texts(more@);
                        let ghost o0 = out@;
                        let ghost m0 = more@;
                        out.append(&mut more);
                        assert(out@ =~= o0 + m0);
                        assert(texts(out@) =~= before + (seq![head@] + tail));
                    },
                }
            },
            ContentBlock::ToolOutput { .. } => {
                assert(texts(out@) =~= before + Seq::<Seq<char>>::empty());
            },
        }
        i += 1;
    }
    assert(all.take(content@.len() as int) =~= all);
    out
}

// ---- tool calls ----

/// The tools that change things.
pub open spec fn mutating(name: Seq<char>) -> bool {
    name == "command"@ || name == "write_file"@ || name == "edit_file"@
}

/// Why the plan gate stops a tool call, if it does.
pub open spec fn gate_reason(kind: AgentKind, name: Seq<char>, blocking_status: Option<&str>) -> Option<
    Seq<char>,
> {
    match blocking_status {
        Some(status) => if kind == AgentKind::Teammate && mutating(name) {
            Some(
                "Blocked: plan status is "@ + status@
                    + ". Submit or revise the plan and wait for approval."@,
            )
        } else {
            None
        },
        None => None,
    }
}

/// Why the plan gate stops a tool call, if it does: a teammate runs no tool that changes things while
/// its plan is in a state that blocks them.
pub fn plan_gate(kind: AgentKind, name: &str, blocking_status: Option<&str>) -> (r: Option<String>)
    ensures
        r.deep_view() == gate_reason(kind, name@, blocking_status),
{
    match blocking_status {
        Some(status) => if kind == AgentKind::Teammate && (str_eq(name, "command") || str_eq(
            name,
            "write_file",
        ) || str_eq(name, "edit_file")) {
            Some(
                concat3(
                    "Blocked: plan status is ",
                    status,
                    ". Submit or revise the plan and wait for approval.",
                ),
            )
        } else {
            None
        },
        None => None,
    }
}

/// A tool call that the model asks for.
#[derive(Debug)]
pub struct ToolRequest {
    pub id: String,
    pub name: String,
    pub input: Json,
}

/// The identifier, the name and the input of each request.
pub open spec fn requests_view(s: Seq<ToolRequest>) -> Seq<(Seq<char>, Seq<char>, JsonV)> {
    s.map_values(|t: ToolRequest| (t.id@, t.name@, t.input@))
}

/// The tool calls among the blocks, in order.
pub open spec fn calls_in(blocks: Seq<BlockV>) -> Seq<(Seq<char>, Seq<char>, JsonV)>
    decreases blocks.len(),
{
    if blocks.len() == 0 {
        Seq::empty()
    } else {
        let rest = calls_in(blocks.drop_last());
        match blocks.last() {
            BlockV::ToolCall { id, name, input } => rest.push((id, name, input)),
            _ => rest,
        }
    }
}

/// The identifier, the name and the input of a tool call.
pub open spec fn its_request() -> spec_fn(BlockV) -> (Seq<char>, Seq<char>, JsonV) {
    |b: BlockV| (b->id, b->name, b->input)
}

/// Every tool call of a response is requested once, with its own identifier, name and input, in the
/// order of the response, and nothing else is.
pub proof fn lemma_every_call_requested(content: Seq<BlockV>)
    ensures
        selects(content, calls_in(content), is_call(), its_request()),
    decreases content.len(),
{
    if content.len() == 0 {
        lemma_selects_nothing::<BlockV, (Seq<char>, Seq<char>, JsonV)>(is_call(), its_request());
        assert(content =~= Seq::<BlockV>::empty());
    } else {
        let front = content.drop_last();
        lemma_every_call_requested(front);
        lemma_selects_push(front, calls_in(front), is_call(), its_request(), content.last());
        assert(front.push(content.last()) =~= content);
    }
}

/// The tool calls of a response, in order.
pub fn tool_requests(content: &[ContentBlock]) -> (r: Vec<ToolRequest>)
    ensures
        requests_view(r@) == calls_in(blocks_view(content@)),
        selects(blocks_view(content@), requests_view(r@), is_call(), its_request()),
{
    proof {
        lemma_every_call_requested(blocks_view(content@));
    }
    let ghost all = blocks_view(content@);
    let mut out: Vec<ToolRequest> = Vec::new();
    assert(requests_view(out@) =~= calls_in(all.take(0)));
    let mut i: usize = 0;
    while i < content.len()
        invariant
            i <= content@.len(),
            all == blocks_view(content@),
            requests_view(out@) == calls_in(all.take(i as int)),
        decreases content@.len() - i,
    {
        let ghost before = requests_view(out@);
        assert(all.take(i + 1).drop_last() =~= all.take(i as int));
        assert(all.take(i + 1).last() == content@[i as int]@);
        match &content[i] {
            ContentBlock::ToolCall { id, name, input } => {
                out.push(ToolRequest { id: id.clone(), name: name.clone(), input: input.dup() });
                assert(requests_view(out@) =~= before.push((id@, name@, input@)));
            },
            _ => {},
        }
        i += 1;
    }
    assert(all.take(content@.len() as int) =~= all);
    out
}

/// Why a tool call is not run, if it is not: the hooks are asked first, then the plan gate.
pub fn refused_call(
    hook_reason: Option<String>,
    kind: AgentKind,
    name: &str,
    blocking_status: Option<&str>,
) -> (r: Option<String>)
    ensures
        hook_reason is Some ==> r == hook_reason,
        hook_reason is None ==> r.deep_view() == gate_reason(kind, name@, blocking_status),
        r is None <==> hook_reason is None && !(blocking_status is Some && kind
            == AgentKind::Teammate && (name@ == "command"@ || name@ == "write_file"@ || name@
            == "edit_file"@)),
{
    proof {
        lemma_plan_gate(kind, name@, blocking_status);
    }
    match hook_reason {
        Some(reason) => Some(reason),
        None => plan_gate(kind, name, blocking_status),
    }
}

/// What came of a tool call: the call, what the tool said, and the reminder of the hooks, where the
/// tool ran and they had one.
#[derive(Debug)]
pub struct ToolRun {
    pub call_id: String,
    pub content: String,
    pub reminder: Option<String>,
}

/// The output blocks of tool calls.
pub open spec fn run_outputs(runs: Seq<ToolRun>) -> Seq<BlockV> {
    runs.map_values(|t: ToolRun| BlockV::ToolOutput { call_id: t.call_id@, content: t.content@ })
}

/// The reminders of tool calls.
pub open spec fn run_reminders(runs: Seq<ToolRun>) -> Seq<Seq<char>>
    decreases runs.len(),
{
    if runs.len() == 0 {
        Seq::empty()
    } else {
        let rest = run_reminders(runs.drop_last());
        match runs.last().reminder {
            Some(t) => rest.push(t@),
            None => rest,
        }
    }
}

/// The user messages that follow the tool calls of a turn.
pub fn finish_tool_calls(runs: &[ToolRun]) -> (r: Vec<Message>)
    ensures
        messages_view(r@) == post_tool_messages(run_outputs(runs@), run_reminders(runs@)),
{
    let ghost goal = run_outputs(runs@);
    let mut outputs: Vec<ContentBlock> = Vec::new();
    let mut reminders: Vec<String> = Vec::new();
    assert(texts(reminders@) =~= run_reminders(runs@.take(0)));
    let mut i: usize = 0;
    while i < runs.len()
        invariant
            i <= runs@.len(),
            goal == run_outputs(runs@),
            blocks_view(outputs@) == goal.take(i as int),
            texts(reminders@) == run_reminders(runs@.take(i as int)),
        decreases runs@.len() - i,
    {
        let run = &runs[i];
        let ghost before = blocks_view(outputs@);
        let ghost told = texts(reminders@);
        assert(runs@.take(i + 1).drop_last() =~= runs@.take(i as int));
        assert(runs@.take(i + 1).last() == *run);
        outputs.push(ContentBlock::tool_output(run.call_id.as_str(), run.content.as_str()));
        assert(blocks_view(outputs@) =~= before.push(goal[i as int]));
        assert(goal.take(i + 1) =~= before.push(goal[i as int]));
        match &run.reminder {
            Some(t) => {
                reminders.push(t.clone());
                assert(texts(reminders@) =~= told.push(t@));
            },
            None => {},
        }
        i += 1;
    }
    assert(goal.take(runs@.len() as int) =~= goal);
    assert(runs@.take(runs@.len() as int) =~= runs@);
    assemble_post_tool_messages(outputs, reminders)
}

// ---- what the user types ----

/// What a line of the user asks for.
#[derive(Debug)]
pub enum LineAction {
    /// An empty line.
    Ignore,
    /// The end of the session.
    Quit,
    /// A turn with this text.
    Turn(String),
}

/// What a line of the user asks for.
pub fn line_action(line: &str) -> (r: LineAction)
    ensures
        ({
            let query = trim(line@);
            if query.len() == 0 {
                r is Ignore
            } else if same_ignoring_ascii_case(query, "q"@) || query == "exit"@ {
                r is Quit
            } else {
                r matches LineAction::Turn(t) && t@ == query
            }
        }),
{
    let query = trimmed(line);
    if char_count(query.as_str()) == 0 {
        LineAction::Ignore
    } else if eq_ignore_ascii_case(query.as_str(), "q") || str_eq(query.as_str(), "exit") {
        LineAction::Quit
    } else {
        LineAction::Turn(query)
    }
}

/// What a user turn does.
#[derive(Debug)]
pub enum UserTurn {
    /// Shows the state of the goal.
    GoalStatus,
    /// Clears the goal.
    GoalClear,
    /// Sets a goal, and works on it.
    GoalSet(String),
    /// Works on the prompt.
    Prompt(String),
}

/// What a user turn does, with texts as sequences of characters.
#[verifier::ext_equal]
pub enum UserTurnV {
    GoalStatus,
    GoalClear,
    GoalSet(Seq<char>),
    Prompt(Seq<char>),
}

impl View for UserTurn {
    type V = UserTurnV;

    open spec fn view(&self) -> UserTurnV {
        match *self {
            UserTurn::GoalStatus => UserTurnV::GoalStatus,
            UserTurn::GoalClear => UserTurnV::GoalClear,
            UserTurn::GoalSet(t) => UserTurnV::GoalSet(t@),
            UserTurn::Prompt(t) => UserTurnV::Prompt(t@),
        }
    }
}

/// What a user turn with this text does.
pub open spec fn user_turn_of(query: Seq<char>) -> UserTurnV {
    let text = trim(query);
    if text == "/goal"@ {
        UserTurnV::GoalStatus
    } else if "/goal "@.is_prefix_of(text) {
        let arg = trim(text.skip("/goal "@.len() as int));
        if clear_alias(ascii_lower(arg)) {
            UserTurnV::GoalClear
        } else {
            UserTurnV::GoalSet(arg)
        }
    } else {
        UserTurnV::Prompt(text)
    }
}

/// What a user turn with this text does.
pub fn user_turn(query: &str) -> (r: UserTurn)
    ensures
        r@ == user_turn_of(query@),
{
    let text = trimmed(query);
    if str_eq(text.as_str(), "/goal") {
        return UserTurn::GoalStatus;
    }
    if str_starts_with(text.as_str(), "/goal ") {
        let cs = chars_of(text.as_str());
        proof {
            reveal_strlit("/goal ");
        }
        let rest = substring(cs.as_slice(), 6, cs.len());
        assert(rest@ =~= text@.skip(6));
        let arg = trimmed(rest.as_str());
        if is_clear_alias(to_ascii_lowercase(arg.as_str()).as_str()) {
            return UserTurn::GoalClear;
        }
        return UserTurn::GoalSet(arg);
    }
    UserTurn::Prompt(text)
}

/// The word for an action of the goal controller.
pub open spec fn action_word(a: GoalAction) -> Seq<char> {
    match a {
        GoalAction::Allow => "Allow"@,
        GoalAction::Block => "Block"@,
        GoalAction::Defer => "Defer"@,
        GoalAction::Achieved => "Achieved"@,
        GoalAction::Failed => "Failed"@,
        GoalAction::Error => "Error"@,
        GoalAction::Limit => "Limit"@,
    }
}

/// What the user is told of a decision about the goal.
pub fn goal_report(action: GoalAction, reason: &str) -> (r: String)
    ensures
        r@ == "[goal] "@ + action_word(action) + ": "@ + reason@,
{
    let word = match action {
        GoalAction::Allow => "Allow",
        GoalAction::Block => "Block",
        GoalAction::Defer => "Defer",
        GoalAction::Achieved => "Achieved",
        GoalAction::Failed => "Failed",
        GoalAction::Error => "Error",
        GoalAction::Limit => "Limit",
    };
    concat2(concat3("[goal] ", word, ": ").as_str(), reason)
}

/// What is said where a goal cannot be set.
pub const GOAL_UNAVAILABLE: &'static str = "goal not available for this agent";

/// What is said of the goal of an agent without one.
pub const NO_GOAL: &'static str = "No goal set";

/// The number of tokens used so far, with those of a response; the count wraps around.
pub fn add_usage(total: u64, usage: Option<Usage>) -> (r: u64)
    requires
        usage matches Some(u) ==> u.input_tokens + u.output_tokens <= u64::MAX,
    ensures
        r == match usage {
            Some(u) => (total + u.input_tokens + u.output_tokens) % 0x1_0000_0000_0000_0000,
            None => total as int,
        },
{
    match usage {
        Some(u) => {
            let sum: u128 = total as u128 + (u.input_tokens + u.output_tokens) as u128;
            if sum > 0xffff_ffff_ffff_ffff {
                (sum - 0x1_0000_0000_0000_0000) as u64
            } else {
                sum as u64
            }
        },
        None => total,
    }
}

// ---- the loop ----

/// The state of an agent loop.
#[verifier::ext_equal]
pub struct LoopV {
    /// The conversation.
    pub messages: Seq<MessageV>,
    /// How many turns have begun.
    pub turn: nat,
    pub max_turns: nat,
    /// How often in a row the conversation was compacted because it was too long for the model.
    pub retries: nat,
    /// The scheduled jobs that were delivered in this turn and not yet acknowledged.
    pub waiting: Seq<CronJobV>,
    /// Where in the conversation they were delivered.
    pub scheduled_start: nat,
}

/// The state of an agent loop.
#[derive(Debug)]
pub struct LoopState {
    messages: Vec<Message>,
    turn: usize,
    max_turns: usize,
    retries: u32,
    waiting: Vec<CronJob>,
    scheduled_start: usize,
}

impl View for LoopState {
    type V = LoopV;

    closed spec fn view(&self) -> LoopV {
        LoopV {
            messages: messages_view(self.messages@),
            turn: self.turn as nat,
            max_turns: self.max_turns as nat,
            retries: self.retries as nat,
            waiting: jobs_view(self.waiting@),
            scheduled_start: self.scheduled_start as nat,
        }
    }
}

/// What holds of a loop at all times.
pub open spec fn loop_ok(s: LoopV) -> bool {
    s.turn <= s.max_turns && s.retries <= MAX_REACTIVE_RETRIES
}

/// A turn begins.
pub open spec fn turn_begun(s: LoopV) -> LoopV {
    LoopV { turn: s.turn + 1, waiting: Seq::empty(), ..s }
}

/// The message that delivers a scheduled job.
pub open spec fn scheduled_message(j: CronJobV) -> MessageV {
    user_text_v("[Scheduled] "@ + j.prompt)
}

/// Scheduled jobs are delivered.
pub open spec fn delivered(s: LoopV, jobs: Seq<CronJobV>) -> LoopV {
    LoopV {
        messages: s.messages + jobs.map_values(|j: CronJobV| scheduled_message(j)),
        waiting: jobs,
        scheduled_start: s.messages.len(),
        ..s
    }
}

/// The line that tells of a delivery.
pub open spec fn delivered_line(j: CronJobV) -> Seq<char> {
    "  [cron] delivered "@ + j.id + ": "@ + first_chars(j.prompt, 60)
}

/// The delivery is taken back: the conversation is cut to what it was before, and no job waits.
pub open spec fn released(s: LoopV) -> LoopV {
    LoopV {
        messages: if s.waiting.len() > 0 && s.scheduled_start < s.messages.len() {
            s.messages.take(s.scheduled_start as int)
        } else {
            s.messages
        },
        waiting: Seq::empty(),
        ..s
    }
}

/// The model has answered.
pub open spec fn answered(s: LoopV, content: Seq<BlockV>) -> LoopV {
    LoopV {
        messages: s.messages.push(MessageV { role: Role::Assistant, content }),
        retries: 0,
        waiting: Seq::empty(),
        ..s
    }
}

/// The message that keeps the agent at work on its goal.
pub open spec fn goal_message(d: StopV) -> MessageV {
    let condition = match d.condition {
        Some(c) => c,
        None => Seq::empty(),
    };
    user_text_v(
        "[Goal still active]\nCondition: "@ + condition + "\nEvaluator: "@ + d.reason
            + "\nContinue working and surface the missing evidence."@,
    )
}

/// What is to be done after a call of the model.
#[derive(Debug)]
pub enum NextStep {
    /// The response is shown, and `ack` is acknowledged. Then the tool calls are run, or the hooks
    /// are asked whether the loop may end.
    Answered { response: MessagesResponse, ack: Vec<CronJob> },
    /// The conversation is compacted, and the next turn begins.
    Compact,
    /// The loop ends with the error; `restore` goes back to the scheduler.
    Failed { error: AgentError, restore: Vec<CronJob> },
    /// The loop was interrupted; `restore` goes back to the scheduler.
    Cancelled { restore: Vec<CronJob> },
}

/// The response asks for tools to be run.
pub open spec fn wants_tools_v(r: ResponseV) -> bool {
    r.finish_reason == "tool_call"@
}

/// Whether the response asks for tools to be run.
pub fn wants_tools(response: &MessagesResponse) -> (r: bool)
    ensures
        r == wants_tools_v(response@),
{
    str_eq(response.finish_reason.as_str(), "tool_call")
}

impl LoopState {
    /// A loop over the conversation.
    pub fn new(messages: Vec<Message>, max_turns: usize) -> (r: Self)
        ensures
            r@ == (LoopV {
                messages: messages_view(messages@),
                turn: 0,
                max_turns: max_turns as nat,
                retries: 0,
                waiting: Seq::empty(),
                scheduled_start: 0,
            }),
            loop_ok(r@),
    {
        let r = LoopState {
            messages,
            turn: 0,
            max_turns,
            retries: 0,
            waiting: Vec::new(),
            scheduled_start: 0,
        };
        assert(r@.waiting =~= Seq::empty());
        r
    }

    /// Begins a turn, where there is one left; otherwise the loop ends with
    /// [`LoopOutcome::MaxTurnsReached`].
    pub fn begin_turn(&mut self) -> (r: Option<LoopOutcome>)
        ensures
            if old(self)@.turn < old(self)@.max_turns {
                r is None && final(self)@ == turn_begun(old(self)@)
            } else {
                r == Some(LoopOutcome::MaxTurnsReached) && final(self)@ == old(self)@
            },
            loop_ok(old(self)@) ==> loop_ok(final(self)@),
    {
        if self.turn >= self.max_turns {
            return Some(LoopOutcome::MaxTurnsReached);
        }
        self.turn = self.turn + 1;
        self.waiting = Vec::new();
        assert(self@.waiting =~= Seq::empty());
        None
    }

    /// Delivers scheduled jobs; a line tells of each.
    pub fn deliver(&mut self, jobs: Vec<CronJob>) -> (r: Vec<String>)
        ensures
            final(self)@ == delivered(old(self)@, jobs_view(jobs@)),
            texts(r@) == jobs_view(jobs@).map_values(|j: CronJobV| delivered_line(j)),
            loop_ok(old(self)@) ==> loop_ok(final(self)@),
    {
        let ghost start = self@;
        let ghost all = jobs_view(jobs@);
        let ghost told = all.map_values(|j: CronJobV| scheduled_message(j));
        let ghost goal = all.map_values(|j: CronJobV| delivered_line(j));
        self.scheduled_start = self.messages.len();
        let mut out: Vec<String> = Vec::new();
        assert(self@.messages =~= start.messages + told.take(0));
        let mut i: usize = 0;
        while i < jobs.len()
            invariant
                i <= jobs@.len(),
                all == jobs_view(jobs@),
                told == all.map_values(|j: CronJobV| scheduled_message(j)),
                goal == all.map_values(|j: CronJobV| delivered_line(j)),
                texts(out@) == goal.take(i as int),
                self@ == (LoopV {
                    messages: start.messages + told.take(i as int),
                    scheduled_start: start.messages.len(),
                    ..start
                }),
            decreases jobs@.len() - i,
        {
            let job = &jobs[i];
            let ghost before = self@.messages;
            let ghost lines0 = texts(out@);
            let m = Message::user_text(concat2("[Scheduled] ", job.prompt.as_str()).as_str());
            self.messages.push(m);
            assert(self@.messages =~= before.push(told[i as int]));
            assert(start.messages + told.take(i + 1) =~= before.push(told[i as int]));
            let head = concat3("  [cron] delivered ", job.id.as_str(), ": ");
            out.push(concat2(head.as_str(), take_chars(job.prompt.as_str(), 60).as_str()));
            assert(texts(out@) =~= lines0.push(goal[i as int]));
            assert(goal.take(i + 1) =~= lines0.push(goal[i as int]));
            i += 1;
        }
        assert(goal.take(jobs@.len() as int) =~= goal);
        assert(told.take(jobs@.len() as int) =~= told);
        self.waiting = jobs;
        out
    }

    /// Takes the delivery of this turn back: the conversation is cut to what it was before, and the
    /// jobs are handed out.
    fn release(&mut self) -> (r: Vec<CronJob>)
        ensures
            jobs_view(r@) == old(self)@.waiting,
            final(self)@ == released(old(self)@),
    {
        let ghost start = self@;
        let mut jobs: Vec<CronJob> = Vec::new();
        std::mem::swap(&mut jobs, &mut self.waiting);
        assert(self@.waiting =~= Seq::empty());
        if jobs.len() > 0 && self.scheduled_start < self.messages.len() {
            self.messages.truncate(self.scheduled_start);
            assert(self@.messages =~= start.messages.take(start.scheduled_start as int));
        }
        jobs
    }

    /// The call of the model has come back.
    pub fn call_returned(&mut self, result: CallResult) -> (r: NextStep)
        ensures
            match result {
                CallResult::Success(m) => r matches NextStep::Answered { response, ack } && response
                    == m && jobs_view(ack@) == old(self)@.waiting && final(self)@ == answered(
                    old(self)@,
                    m@.content,
                ),
                CallResult::PromptTooLong(e) => if old(self)@.retries < MAX_REACTIVE_RETRIES {
                    r is Compact && final(self)@ == (LoopV {
                        retries: old(self)@.retries + 1,
                        ..old(self)@
                    })
                } else {
                    r matches NextStep::Failed { error, restore } && error == bridged(e)
                        && jobs_view(restore@) == old(self)@.waiting && final(self)@ == released(
                        old(self)@,
                    )
                },
                CallResult::Failure(e) => r matches NextStep::Failed { error, restore } && error
                    == bridged(e) && jobs_view(restore@) == old(self)@.waiting && final(self)@
                    == released(old(self)@),
                CallResult::Cancelled => r matches NextStep::Cancelled { restore } && jobs_view(
                    restore@,
                ) == old(self)@.waiting && final(self)@ == released(old(self)@),
            },
            loop_ok(old(self)@) ==> loop_ok(final(self)@),
    {
        let ghost start = self@;
        match result {
            CallResult::Success(response) => {
                self.retries = 0;
                let m = Message::assistant_content(dup_blocks(response.content.as_slice()));
                self.messages.push(m);
                assert(self@.messages =~= start.messages.push(m@));
                let mut ack: Vec<CronJob> = Vec::new();
                std::mem::swap(&mut ack, &mut self.waiting);
                assert(self@.waiting =~= Seq::empty());
                NextStep::Answered { response, ack }
            },
            CallResult::PromptTooLong(e) => {
                if self.retries < MAX_REACTIVE_RETRIES {
                    self.retries = self.retries + 1;
                    NextStep::Compact
                } else {
                    let restore = self.release();
                    NextStep::Failed { error: AgentError::from(e), restore }
                }
            },
            CallResult::Failure(e) => {
                let restore = self.release();
                NextStep::Failed { error: AgentError::from(e), restore }
            },
            CallResult::Cancelled => {
                let restore = self.release();
                NextStep::Cancelled { restore }
            },
        }
    }

    /// The hooks have been asked whether the loop may end; a message keeps it going. Whether a
    /// further turn follows.
    pub fn stop_asked(&mut self, force: Option<String>) -> (r: bool)
        ensures
            r == (force is Some),
            final(self)@ == match force {
                Some(t) => LoopV {
                    messages: old(self)@.messages.push(user_text_v(t@)),
                    ..old(self)@
                },
                None => old(self)@,
            },
            loop_ok(old(self)@) ==> loop_ok(final(self)@),
    {
        match force {
            Some(t) => {
                let ghost before = self@.messages;
                let m = Message::user_text(t.as_str());
                self.messages.push(m);
                assert(self@.messages =~= before.push(m@));
                true
            },
            None => false,
        }
    }

    /// The goal controller has decided; a goal that is not met keeps the loop going. Whether a
    /// further turn follows.
    pub fn goal_decided(&mut self, decision: Option<StopDecision>) -> (r: bool)
        ensures
            r == (decision matches Some(d) && d.action == GoalAction::Block),
            final(self)@ == match decision {
                Some(d) => if d.action == GoalAction::Block {
                    LoopV { messages: old(self)@.messages.push(goal_message(d@)), ..old(self)@ }
                } else {
                    old(self)@
                },
                None => old(self)@,
            },
            loop_ok(old(self)@) ==> loop_ok(final(self)@),
    {
        let d = match decision {
            Some(d) => d,
            None => {
                return false;
            },
        };
        if d.action != GoalAction::Block {
            return false;
        }
        let ghost said = d@;
        let condition = match d.condition {
            Some(c) => c,
            None => String::new(),
        };
        let head = concat3("[Goal still active]\nCondition: ", condition.as_str(), "\nEvaluator: ");
        let text = concat3(
            head.as_str(),
            d.reason.as_str(),
            "\nContinue working and surface the missing evidence.",
        );
        let ghost before = self@.messages;
        let m = Message::user_text(text.as_str());
        assert(m@ == goal_message(said));
        self.messages.push(m);
        assert(self@.messages =~= before.push(m@));
        true
    }

    /// The tool calls of the turn have been run.
    pub fn tools_done(&mut self, runs: &[ToolRun])
        ensures
            final(self)@ == (LoopV {
                messages: old(self)@.messages + post_tool_messages(
                    run_outputs(runs@),
                    run_reminders(runs@),
                ),
                ..old(self)@
            }),
            loop_ok(old(self)@) ==> loop_ok(final(self)@),
    {
        let ghost before = self@.messages;
        let mut more = finish_tool_calls(runs);
        let ghost m0 = self.messages@;
        let ghost added = more@;
        self.messages.append(&mut more);
        assert(self.messages@ =~= m0 + added);
        assert(self@.messages =~= before + messages_view(added));
    }
}

// ---- subagents ----

/// The number of turns that a subagent gets: at least one, at most fifty.
pub fn subagent_turns(max_turns: usize) -> (r: usize)
    ensures
        r == if max_turns < 1 {
            1
        } else if max_turns > 50 {
            50
        } else {
            max_turns
        },
{
    if max_turns < 1 {
        1
    } else if max_turns > 50 {
        50
    } else {
        max_turns
    }
}

/// How a subagent ended: a line for the user, and what its caller is answered.
#[derive(Debug)]
pub struct SubagentReply {
    pub status: String,
    pub answer: String,
}

/// How a subagent ended.
pub fn subagent_reply(outcome: LoopOutcome, messages: &[Message], max_turns: usize) -> (r:
    SubagentReply)
    ensures
        match outcome {
            LoopOutcome::Completed => match final_text(last_answer(messages_view(messages@))) {
                Some(t) => r.status@ == "[Subagent done]"@ && r.answer@ == t,
                None => r.status@ == "[Subagent done - no text]"@ && r.answer@ == "(no summary)"@,
            },
            LoopOutcome::MaxTurnsReached => r.status@ == "[Subagent stopped after "@ + decimal(
                max_turns as nat,
            ) + " turns without final answer]"@ && r.answer@ == "Subagent stopped after "@
                + decimal(max_turns as nat) + " turns without a final answer."@,
            LoopOutcome::Cancelled => r.status@ == "[Subagent cancelled]"@ && r.answer@
                == "(cancelled)"@,
        },
        outcome is Completed && some_text(last_answer(messages_view(messages@))) ==> tells(
            r.answer@,
            last_answer(messages_view(messages@)),
        ),
{
    proof {
        lemma_final_text(last_answer(messages_view(messages@)));
    }
    match outcome {
        LoopOutcome::Completed => match extract_final_text_from(messages) {
            Some(text) => SubagentReply { status: owned("[Subagent done]"), answer: text },
            None => SubagentReply {
                status: owned("[Subagent done - no text]"),
                answer: owned("(no summary)"),
            },
        },
        LoopOutcome::MaxTurnsReached => {
            let n = decimal_usize(max_turns);
            SubagentReply {
                status: concat3(
                    "[Subagent stopped after ",
                    n.as_str(),
                    " turns without final answer]",
                ),
                answer: concat3(
                    "Subagent stopped after ",
                    n.as_str(),
                    " turns without a final answer.",
                ),
            }
        },
        LoopOutcome::Cancelled => SubagentReply {
            status: owned("[Subagent cancelled]"),
            answer: owned("(cancelled)"),
        },
    }
}

// ---- laws ----

/// A call that fails or is interrupted leaves no trace of the prompts that were scheduled for its
/// turn: the conversation is what it was before the delivery, and all of the jobs are given back.
pub proof fn lemma_failed_turn_takes_delivery_back(s: LoopV, jobs: Seq<CronJobV>)
    ensures
        released(delivered(s, jobs)).messages == s.messages,
        delivered(s, jobs).waiting == jobs,
{
    let after = delivered(s, jobs);
    if jobs.len() > 0 {
        assert(after.messages.take(s.messages.len() as int) =~= s.messages);
    } else {
        assert(after.messages =~= s.messages);
    }
}

/// The jobs of a turn are acknowledged or given back, never both and never twice: after an answer and
/// after a failure none waits.
pub proof fn lemma_jobs_settled(s: LoopV, content: Seq<BlockV>)
    ensures
        answered(s, content).waiting.len() == 0,
        released(s).waiting.len() == 0,
        released(released(s)) == released(s),
{
}

/// A conversation that stays too long for the model is compacted as often as allowed, and then the
/// loop ends: so many compactions in a row leave no retry, and an answer gives them all back.
pub proof fn lemma_retries_bounded(s: LoopV, content: Seq<BlockV>)
    requires
        loop_ok(s),
    ensures
        s.retries == MAX_REACTIVE_RETRIES || loop_ok(LoopV { retries: s.retries + 1, ..s }),
        answered(s, content).retries == 0,
        loop_ok(answered(s, content)),
        loop_ok(released(s)),
{
}

/// Every tool call is answered: where each was run, the message behind the response holds the output
/// of each call, in order, under its identifier.
pub proof fn lemma_tool_calls_answered(s: LoopV, content: Seq<BlockV>, runs: Seq<ToolRun>)
    requires
        runs.len() > 0,
        runs.len() == calls_in(content).len(),
        forall|i: int|
            0 <= i < runs.len() ==> (#[trigger] runs[i]).call_id@ == calls_in(content)[i].0,
    ensures
        ({
            let after = answered(s, content).messages + post_tool_messages(
                run_outputs(runs),
                run_reminders(runs),
            );
            let k = s.messages.len() as int;
            &&& after[k] == (MessageV { role: Role::Assistant, content })
            &&& after[k + 1].role == Role::User
            &&& after[k + 1].content.len() == calls_in(content).len()
            &&& forall|i: int|
                0 <= i < runs.len() ==> (#[trigger] after[k + 1].content[i]) == (
                BlockV::ToolOutput { call_id: calls_in(content)[i].0, content: runs[i].content@ })
        }),
{
    assert forall|i: int| 0 <= i < runs.len() implies (#[trigger] run_outputs(runs)[i]) == (
    BlockV::ToolOutput { call_id: calls_in(content)[i].0, content: runs[i].content@ }) by {}
}

/// Delivering, answering and running tools only ever add to the conversation.
pub proof fn lemma_conversation_grows(
    s: LoopV,
    jobs: Seq<CronJobV>,
    content: Seq<BlockV>,
    runs: Seq<ToolRun>,
)
    ensures
        s.messages.is_prefix_of(delivered(s, jobs).messages),
        s.messages.is_prefix_of(answered(s, content).messages),
        s.messages.is_prefix_of(
            s.messages + post_tool_messages(run_outputs(runs), run_reminders(runs)),
        ),
{
    assert(delivered(s, jobs).messages.take(s.messages.len() as int) =~= s.messages);
    assert(answered(s, content).messages.take(s.messages.len() as int) =~= s.messages);
    assert((s.messages + post_tool_messages(run_outputs(runs), run_reminders(runs))).take(
        s.messages.len() as int,
    ) =~= s.messages);
}

impl LoopState {
    /// The conversation.
    pub fn messages(&self) -> (r: &Vec<Message>)
        ensures
            messages_view(r@) == self@.messages,
    {
        &self.messages
    }

    /// The conversation, once the loop has ended.
    pub fn into_messages(self) -> (r: Vec<Message>)
        ensures
            messages_view(r@) == self@.messages,
    {
        self.messages
    }

    /// The conversation becomes `messages`.
    pub fn set_messages(&mut self, messages: Vec<Message>)
        ensures
            final(self)@ == (LoopV { messages: messages_view(messages@), ..old(self)@ }),
            loop_ok(old(self)@) ==> loop_ok(final(self)@),
    {
        self.messages = messages;
    }

    /// The results of background tasks join the conversation, where there are any.
    pub fn inject(&mut self, notifications: Vec<String>)
        ensures
            final(self)@ == injected(old(self)@, texts(notifications@)),
            loop_ok(old(self)@) ==> loop_ok(final(self)@),
    {
        assert(texts(notifications@).len() == notifications@.len());
        let _ = BackgroundManager::collect_and_inject(&mut self.messages, notifications);
    }

    /// Messages join the conversation.
    pub fn extend(&mut self, added: Vec<Message>)
        ensures
            final(self)@ == (LoopV {
                messages: old(self)@.messages + messages_view(added@),
                ..old(self)@
            }),
            loop_ok(old(self)@) ==> loop_ok(final(self)@),
    {
        let ghost before = self@.messages;
        let ghost m0 = self.messages@;
        let ghost a0 = added@;
        let mut more = added;
        self.messages.append(&mut more);
        assert(self.messages@ =~= m0 + a0);
        assert(self@.messages =~= before + messages_view(a0));
    }
}

/// The results of background tasks have joined the conversation.
pub open spec fn injected(s: LoopV, notifications: Seq<Seq<char>>) -> LoopV {
    if notifications.len() == 0 {
        s
    } else {
        LoopV {
            messages: s.messages.push(
                MessageV { role: Role::User, content: notice_blocks(notifications) },
            ),
            ..s
        }
    }
}

} // verus!
