//! The todo list of the agent: at most twenty items, at most one of them in progress, none without
//! content.

use vstd::prelude::*;

use crate::json::{array_of, lemma_list_view, list_view, text_field, Json, JsonV};
use crate::text::{
    char_count, concat2, concat3, decimal, decimal_usize, join, joined, lowercase, owned, str_eq,
    texts, trim, trimmed,
};

verus! {

broadcast use vstd::string::group_string_axioms;

/// How many todos a list holds at most.
pub const MAX_TODOS: usize = 20;

/// Todo item status.
#[derive(Clone, Copy, Debug, PartialEq, Eq, Structural)]
pub enum TodoStatus {
    Pending,
    InProgress,
    Completed,
}

/// A single todo item.
#[derive(Debug)]
pub struct TodoItem {
    pub content: String,
    pub status: TodoStatus,
}

/// A todo item, with its text as a sequence of characters.
#[verifier::ext_equal]
pub struct TodoV {
    pub content: Seq<char>,
    pub status: TodoStatus,
}

impl View for TodoItem {
    type V = TodoV;

    open spec fn view(&self) -> TodoV {
        TodoV { content: self.content@, status: self.status }
    }
}

pub open spec fn todos_view(s: Seq<TodoItem>) -> Seq<TodoV> {
    s.map_values(|t: TodoItem| t@)
}

/// TodoManager - manages the todo list.
#[derive(Debug)]
pub struct TodoManager {
    pub items: Vec<TodoItem>,
}

impl View for TodoManager {
    type V = Seq<TodoV>;

    open spec fn view(&self) -> Seq<TodoV> {
        todos_view(self.items@)
    }
}

/// How many of the items have the status.
pub open spec fn count_status(items: Seq<TodoV>, status: TodoStatus) -> nat
    decreases items.len(),
{
    if items.len() == 0 {
        0
    } else {
        count_status(items.drop_last(), status) + if items.last().status == status {
            1nat
        } else {
            0
        }
    }
}

/// What holds of every list that was accepted.
pub open spec fn valid_todos(items: Seq<TodoV>) -> bool {
    &&& items.len() <= MAX_TODOS
    &&& count_status(items, TodoStatus::InProgress) <= 1
    &&& forall|i: int| 0 <= i < items.len() ==> (#[trigger] items[i]).content.len() > 0
}

/// The box in front of an item.
pub open spec fn marker(s: TodoStatus) -> Seq<char> {
    match s {
        TodoStatus::Pending => "[ ]"@,
        TodoStatus::InProgress => "[>]"@,
        TodoStatus::Completed => "[x]"@,
    }
}

/// The line of an item.
pub open spec fn todo_line(t: TodoV) -> Seq<char> {
    marker(t.status) + " "@ + t.content
}

/// The list as the model and the user see it.
pub open spec fn todos_text(items: Seq<TodoV>) -> Seq<char> {
    if items.len() == 0 {
        "No todos."@
    } else {
        join(
            items.map_values(|t: TodoV| todo_line(t)).push(
                "\n("@ + decimal(count_status(items, TodoStatus::Completed)) + "/"@ + decimal(
                    items.len(),
                ) + ") completed"@,
            ),
            "\n"@,
        )
    }
}

/// The status that a text names, in any case.
pub open spec fn status_of(s: Seq<char>) -> Result<TodoStatus, Seq<char>> {
    let lower = lowercase(s);
    if lower == "pending"@ {
        Ok(TodoStatus::Pending)
    } else if lower == "in_progress"@ {
        Ok(TodoStatus::InProgress)
    } else if lower == "completed"@ {
        Ok(TodoStatus::Completed)
    } else {
        Err("Invalid status '"@ + lower + "'"@)
    }
}

/// The item that a value describes, or what is wrong with it.
pub open spec fn item_of(index: nat, item: JsonV) -> Result<TodoV, Seq<char>> {
    let place = "todos["@ + decimal(index) + "]"@;
    if !(item is Object) {
        Err(place + " must be an object"@)
    } else {
        match text_field(item, "content"@) {
            None => Err(place + " requires content"@),
            Some(c) => if trim(c).len() == 0 {
                Err(place + " requires non-empty content"@)
            } else {
                match status_of(
                    match text_field(item, "status"@) {
                        Some(s) => s,
                        None => "pending"@,
                    },
                ) {
                    Err(e) => Err(e),
                    Ok(status) => Ok(TodoV { content: trim(c), status }),
                }
            },
        }
    }
}

/// The items that the values describe, or what is wrong with the first that will not do.
pub open spec fn items_of(values: Seq<JsonV>) -> Result<Seq<TodoV>, Seq<char>>
    decreases values.len(),
{
    if values.len() == 0 {
        Ok(Seq::empty())
    } else {
        match items_of(values.drop_last()) {
            Err(e) => Err(e),
            Ok(items) => match item_of((values.len() - 1) as nat, values.last()) {
                Err(e) => Err(e),
                Ok(t) => Ok(items.push(t)),
            },
        }
    }
}

/// The list that a value describes, or what is wrong with it.
pub open spec fn list_of(todos: JsonV) -> Result<Seq<TodoV>, Seq<char>> {
    match array_of(todos) {
        None => Err("todos must be an array"@),
        Some(values) => if values.len() > MAX_TODOS {
            Err("Max 20 todos allowed"@)
        } else {
            match items_of(values) {
                Err(e) => Err(e),
                Ok(items) => if count_status(items, TodoStatus::InProgress) > 1 {
                    Err("Only one todo can be in_progress at a time"@)
                } else {
                    Ok(items)
                },
            }
        },
    }
}

fn parse_status(s: &str) -> (r: Result<TodoStatus, String>)
    ensures
        match r {
            Ok(t) => status_of(s@) == Ok::<TodoStatus, Seq<char>>(t),
            Err(e) => status_of(s@) == Err::<TodoStatus, Seq<char>>(e@),
        },
{
    let lower = s.to_lowercase();
    if str_eq(lower.as_str(), "pending") {
        Ok(TodoStatus::Pending)
    } else if str_eq(lower.as_str(), "in_progress") {
        Ok(TodoStatus::InProgress)
    } else if str_eq(lower.as_str(), "completed") {
        Ok(TodoStatus::Completed)
    } else {
        Err(concat3("Invalid status '", lower.as_str(), "'"))
    }
}

fn validate_item(index: usize, item: &Json) -> (r: Result<TodoItem, String>)
    ensures
        match r {
            Ok(t) => item_of(index as nat, item@) == Ok::<TodoV, Seq<char>>(t@),
            Err(e) => item_of(index as nat, item@) == Err::<TodoV, Seq<char>>(e@),
        },
{
    let place = concat3("todos[", decimal_usize(index).as_str(), "]");
    match item {
        Json::Object(_) => {},
        _ => {
            return Err(concat2(place.as_str(), " must be an object"));
        },
    }
    let content = match item.str_field("content") {
        None => {
            return Err(concat2(place.as_str(), " requires content"));
        },
        Some(c) => trimmed(c),
    };
    if char_count(content.as_str()) == 0 {
        return Err(concat2(place.as_str(), " requires non-empty content"));
    }
    let named = match item.str_field("status") {
        Some(s) => s,
        None => "pending",
    };
    match parse_status(named) {
        Err(e) => Err(e),
        Ok(status) => Ok(TodoItem { content, status }),
    }
}

proof fn lemma_items_valid(values: Seq<JsonV>)
    ensures
        items_of(values) matches Ok(items) ==> items.len() == values.len() && forall|i: int|
            0 <= i < items.len() ==> (#[trigger] items[i]).content.len() > 0,
    decreases values.len(),
{
    if values.len() > 0 {
        lemma_items_valid(values.drop_last());
    }
}

proof fn lemma_items_error_stays(values: Seq<JsonV>, n: int)
    requires
        0 <= n <= values.len(),
        items_of(values.take(n)) is Err,
    ensures
        items_of(values) == items_of(values.take(n)),
    decreases values.len(),
{
    if n < values.len() {
        assert(values.drop_last().take(n) =~= values.take(n));
        lemma_items_error_stays(values.drop_last(), n);
    } else {
        assert(values.take(n) =~= values);
    }
}

/// A value is accepted exactly where it is an array of at most twenty objects, each with content and
/// a known status, of which at most one is in progress; what was accepted is a valid list with as
/// many items.
pub proof fn lemma_accepted_list_is_valid(todos: JsonV)
    ensures
        list_of(todos) matches Ok(items) ==> valid_todos(items) && array_of(todos) is Some
            && items.len() == array_of(todos)->0.len(),
{
    if list_of(todos) is Ok {
        lemma_items_valid(array_of(todos)->0);
    }
}

impl Default for TodoManager {
    fn default() -> (r: Self)
        ensures
            r@ == Seq::<TodoV>::empty(),
    {
        TodoManager::new()
    }
}

impl TodoManager {
    /// The empty list.
    pub fn new() -> (r: Self)
        ensures
            r@ == Seq::<TodoV>::empty(),
            valid_todos(r@),
    {
        let r = TodoManager { items: Vec::new() };
        assert(r@ =~= Seq::<TodoV>::empty());
        r
    }

    /// The list as the model and the user see it.
    pub fn render(&self) -> (r: String)
        ensures
            r@ == todos_text(self@),
    {
        let n: usize = self.items.len();
        if n == 0 {
            return owned("No todos.");
        }
        let ghost all = self@;
        let ghost goal = all.map_values(|t: TodoV| todo_line(t));
        let mut out: Vec<String> = Vec::new();
        let mut done: usize = 0;
        let mut i: usize = 0;
        while i < n
            invariant
                i <= n,
                n == self.items@.len(),
                all == self@,
                goal == all.map_values(|t: TodoV| todo_line(t)),
                texts(out@) == goal.take(i as int),
                done <= i,
                done == count_status(all.take(i as int), TodoStatus::Completed),
            decreases n - i,
        {
            let todo = &self.items[i];
            let ghost before = texts(out@);
            assert(all.take(i + 1).drop_last() =~= all.take(i as int));
            assert(all.take(i + 1).last() == todo@);
            let mark = match todo.status {
                TodoStatus::Pending => "[ ]",
                TodoStatus::InProgress => "[>]",
                TodoStatus::Completed => "[x]",
            };
            if todo.status == TodoStatus::Completed {
                done += 1;
            }
            out.push(concat3(mark, " ", todo.content.as_str()));
            assert(texts(out@) =~= before.push(goal[i as int]));
            assert(goal.take(i + 1) =~= before.push(goal[i as int]));
            i += 1;
        }
        assert(goal.take(n as int) =~= goal);
        assert(all.take(n as int) =~= all);
        let ratio = concat3(decimal_usize(done).as_str(), "/", decimal_usize(n).as_str());
        let last = concat3("\n(", ratio.as_str(), ") completed");
        assert(last@ =~= "\n("@ + decimal(done as nat) + "/"@ + decimal(n as nat) + ") completed"@);
        out.push(last);
        assert(texts(out@) =~= goal.push(last@));
        joined(out.as_slice(), "\n")
    }

    /// Takes over the list that the value describes, and shows it; the list stays as it was where the
    /// value will not do.
    pub fn update(&mut self, todos: &Json) -> (r: Result<String, String>)
        ensures
            match list_of(todos@) {
                Ok(items) => r matches Ok(t) && t@ == todos_text(items) && final(self)@ == items
                    && valid_todos(final(self)@),
                Err(e) => r matches Err(m) && m@ == e && *final(self) == *old(self),
            },
    {
        let values = match todos {
            Json::Array(a) => a,
            _ => {
                return Err(owned("todos must be an array"));
            },
        };
        let ghost all = list_view(values@);
        proof {
            lemma_list_view(values@);
        }
        let n: usize = values.len();
        if n > MAX_TODOS {
            return Err(owned("Max 20 todos allowed"));
        }
        let mut validated: Vec<TodoItem> = Vec::new();
        assert(todos_view(validated@) =~= Seq::empty());
        let mut in_progress: usize = 0;
        let mut i: usize = 0;
        while i < n
            invariant
                i <= n,
                n == values@.len(),
                n <= MAX_TODOS,
                all == list_view(values@),
                all.len() == n,
                todos@ == JsonV::Array(all),
                *self == *old(self),
                items_of(all.take(i as int)) == Ok::<Seq<TodoV>, Seq<char>>(
                    todos_view(validated@),
                ),
                in_progress <= i,
                in_progress == count_status(todos_view(validated@), TodoStatus::InProgress),
            decreases n - i,
        {
            let ghost before = todos_view(validated@);
            proof {
                lemma_list_view(values@);
                assert(all.take(i + 1).drop_last() =~= all.take(i as int));
                assert(all.take(i + 1).last() == values@[i as int]@);
            }
            match validate_item(i, &values[i]) {
                Err(e) => {
                    proof {
                        lemma_items_error_stays(all, i + 1);
                    }
                    return Err(e);
                },
                Ok(todo) => {
                    if todo.status == TodoStatus::InProgress {
                        in_progress += 1;
                    }
                    validated.push(todo);
                    assert(todos_view(validated@) =~= before.push(todo@));
                    assert(todos_view(validated@).drop_last() =~= before);
                },
            }
            i += 1;
        }
        assert(all.take(n as int) =~= all);
        if in_progress > 1 {
            return Err(owned("Only one todo can be in_progress at a time"));
        }
        proof {
            lemma_accepted_list_is_valid(todos@);
        }
        self.items = validated;
        Ok(self.render())
    }
}

/// What a call of the todo tool shows to the user, and what it answers.
#[derive(Debug)]
pub struct TodoReply {
    /// The heading and the text below it, where something is shown.
    pub shown: Option<(String, String)>,
    pub answer: String,
}

/// The todo list that the agent's tools share.
#[derive(Debug)]
pub struct SharedTodoManager {
    manager: TodoManager,
}

impl View for SharedTodoManager {
    type V = Seq<TodoV>;

    closed spec fn view(&self) -> Seq<TodoV> {
        self.manager@
    }
}

impl SharedTodoManager {
    pub fn new(manager: TodoManager) -> (r: Self)
        ensures
            r@ == manager@,
    {
        SharedTodoManager { manager }
    }

    /// The list as the model and the user see it.
    pub fn render(&self) -> (r: String)
        ensures
            r@ == todos_text(self@),
    {
        self.manager.render()
    }

    /// The `todo_write` tool: updates the list, and shows it below a heading.
    pub fn run_todo_write(&mut self, todos: &Json) -> (r: TodoReply)
        ensures
            match list_of(todos@) {
                Ok(items) => final(self)@ == items && r.answer@ == todos_text(items) && (
                r.shown matches Some(s) && s.0@ == "Current Tasks"@ && s.1@ == todos_text(items)),
                Err(e) => final(self)@ == old(self)@ && r.answer@ == "Error: "@ + e && r.shown
                    is None,
            },
    {
        match self.manager.update(todos) {
            Ok(rendered) => TodoReply {
                shown: Some((owned("Current Tasks"), rendered.clone())),
                answer: rendered,
            },
            Err(e) => TodoReply { shown: None, answer: concat2("Error: ", e.as_str()) },
        }
    }
}

} // verus!
