//! Console output, line by line, over a backend that takes text.
//!
//! Colour is used only where both the caller and the terminal want it.

use vstd::prelude::*;

use crate::json::{json_compact, json_text, Json, JsonV};
use crate::text::{
    byte_count, byte_len, char_count, chars_of, concat2, concat3, decimal, decimal_u64, decimal_usize,
    first_chars, join, joined, owned, string_of, take_chars, texts, trim, trim_end, trimmed,
    trimmed_end,
};

pub mod input;

verus! {

broadcast use vstd::string::group_string_axioms;

/// What a backend is told to do.
#[verifier::ext_equal]
pub enum Op {
    Write(Seq<char>),
    Flush,
}

/// What all writes together come to.
pub open spec fn written(ops: Seq<Op>) -> Seq<char>
    decreases ops.len(),
{
    if ops.len() == 0 {
        Seq::empty()
    } else {
        match ops.last() {
            Op::Write(s) => written(ops.drop_last()) + s,
            Op::Flush => written(ops.drop_last()),
        }
    }
}

/// Takes the text that is shown.
pub trait Backend {
    /// What the backend was told to do so far.
    spec fn received(&self) -> Seq<Op>;

    /// What came of each thing that it was told to do.
    spec fn outcomes(&self) -> Seq<Result<(), std::io::Error>>;

    /// Nothing ever fails.
    spec fn reliable(&self) -> bool;

    /// Writes the text.
    fn write_str(&mut self, s: &str) -> (r: Result<(), std::io::Error>)
        ensures
            final(self).received() == old(self).received().push(Op::Write(s@)),
            final(self).outcomes() == old(self).outcomes().push(r),
            final(self).reliable() == old(self).reliable(),
            old(self).reliable() ==> r is Ok,
    ;

    /// Makes what was written visible.
    fn flush(&mut self) -> (r: Result<(), std::io::Error>)
        ensures
            final(self).received() == old(self).received().push(Op::Flush),
            final(self).outcomes() == old(self).outcomes().push(r),
            final(self).reliable() == old(self).reliable(),
            old(self).reliable() ==> r is Ok,
    ;
}

/// Keeps what is written in memory.
pub struct TextBackend {
    text: String,
    log: Ghost<Seq<Op>>,
}

impl TextBackend {
    #[verifier::type_invariant]
    spec fn text_is_written(self) -> bool {
        self.text@ == written(self.log@)
    }

    pub fn new() -> (r: Self)
        ensures
            r.received() == Seq::<Op>::empty(),
            r.reliable(),
    {
        proof {
            reveal_strlit("");
            assert(""@ =~= Seq::<char>::empty());
        }
        TextBackend { text: owned(""), log: Ghost(Seq::empty()) }
    }

    /// What was written so far.
    pub fn text(&self) -> (r: &str)
        ensures
            r@ == written(self.received()),
    {
        proof {
            use_type_invariant(self);
        }
        self.text.as_str()
    }
}

impl Backend for TextBackend {
    closed spec fn received(&self) -> Seq<Op> {
        self.log@
    }

    closed spec fn outcomes(&self) -> Seq<Result<(), std::io::Error>> {
        Seq::new(self.log@.len(), |i: int| Ok(()))
    }

    open spec fn reliable(&self) -> bool {
        true
    }

    fn write_str(&mut self, s: &str) -> (r: Result<(), std::io::Error>) {
        proof {
            use_type_invariant(&*self);
        }
        let text = concat2(self.text.as_str(), s);
        let ghost log = self.log@.push(Op::Write(s@));
        assert(log.drop_last() =~= self.log@);
        *self = TextBackend { text, log: Ghost(log) };
        Ok(())
    }

    fn flush(&mut self) -> (r: Result<(), std::io::Error>) {
        proof {
            use_type_invariant(&*self);
        }
        let text = self.text.clone();
        let ghost log = self.log@.push(Op::Flush);
        assert(log.drop_last() =~= self.log@);
        *self = TextBackend { text, log: Ghost(log) };
        Ok(())
    }
}

// ---- colour ----

/// The sequence that ends a colour.
pub open spec fn color_end() -> Seq<char> {
    "\u{1b}[0m"@
}

/// The text with the colour taken up again wherever the text ends one.
pub open spec fn taken_up(s: Seq<char>, style: Seq<char>) -> Seq<char>
    decreases s.len(),
{
    if s.len() < 4 {
        s
    } else if s.take(4) == color_end() {
        color_end() + style + taken_up(s.skip(4), style)
    } else {
        s.take(1) + taken_up(s.skip(1), style)
    }
}

/// `s` is `msg`, in the colour of the code or in none. The colour is taken up again wherever `msg`
/// itself ends one. Where the switch is turned while the text is written, the colour may be missing at
/// its start or inside it.
pub open spec fn tinted(s: Seq<char>, msg: Seq<char>, code: Seq<char>) -> bool {
    let style = "\u{1b}["@ + code + "m"@;
    ||| s == msg
    ||| s == style + taken_up(msg, style) + color_end()
    ||| s == style + msg + color_end()
    ||| s == taken_up(msg, style) + color_end()
    ||| s == msg + color_end()
}

/// `colored::control::SHOULD_COLORIZE.should_colorize()`: whether the terminal wants colours, which
/// depends on the environment and on a switch of the process.
#[verifier::external_body]
fn should_colorize() -> bool {
    colored::control::SHOULD_COLORIZE.should_colorize()
}

/// `colored`'s `yellow`, as displayed: the text in yellow, or as it is where colours are off.
/// What the text itself says of colours is kept, and the colour taken up again behind it.
#[verifier::external_body]
fn yellow(msg: &str) -> (r: String)
    ensures
        tinted(r@, msg@, "33"@),
{
    colored::Colorize::yellow(msg).to_string()
}

/// `colored`'s `red`, as displayed: the text in red, or as it is where colours are off. What the
/// text itself says of colours is kept, and the colour taken up again behind it.
#[verifier::external_body]
fn red(msg: &str) -> (r: String)
    ensures
        tinted(r@, msg@, "31"@),
{
    colored::Colorize::red(msg).to_string()
}

/// `colored`'s `cyan`, as displayed: the text in cyan, or as it is where colours are off. What the
/// text itself says of colours is kept, and the colour taken up again behind it.
#[verifier::external_body]
fn cyan(msg: &str) -> (r: String)
    ensures
        tinted(r@, msg@, "36"@),
{
    colored::Colorize::cyan(msg).to_string()
}

/// `colored`'s `dimmed`, as displayed: the text dimmed, or as it is where colours are off. What the
/// text itself says of colours is kept, and the colour taken up again behind it.
#[verifier::external_body]
fn dimmed(msg: &str) -> (r: String)
    ensures
        tinted(r@, msg@, "2"@),
{
    colored::Colorize::dimmed(msg).to_string()
}

/// The colours in use.
#[derive(Clone, Copy, Debug, PartialEq, Eq, Structural)]
pub enum Tint {
    Yellow,
    Red,
    Cyan,
    Dimmed,
}

/// The code of a colour.
pub open spec fn tint_code(t: Tint) -> Seq<char> {
    match t {
        Tint::Yellow => "33"@,
        Tint::Red => "31"@,
        Tint::Cyan => "36"@,
        Tint::Dimmed => "2"@,
    }
}

/// `s` is how `msg` is shown: as it is where colours are off, else in the colour or in none.
pub open spec fn shown(s: Seq<char>, msg: Seq<char>, t: Tint, colorize: bool) -> bool {
    tinted(s, msg, tint_code(t)) && (!colorize ==> s == msg)
}

/// How the text is shown; `colorize` says whether colours are on.
pub fn tint(msg: &str, t: Tint, colorize: bool) -> (r: String)
    ensures
        shown(r@, msg@, t, colorize),
{
    if colorize {
        match t {
            Tint::Yellow => yellow(msg),
            Tint::Red => red(msg),
            Tint::Cyan => cyan(msg),
            Tint::Dimmed => dimmed(msg),
        }
    } else {
        owned(msg)
    }
}

// ---- texts ----

/// The rows of the logo, letter by letter, each five columns wide.
pub open spec fn logo_glyphs() -> Seq<Seq<Seq<char>>> {
    seq![
        seq![
            "#### "@,
            "#   #"@,
            "  #  "@,
            " ####"@,
            "#   #"@,
            " ### "@,
            "#   #"@,
            " ####"@,
            "#### "@,
        ],
        seq![
            "#   #"@,
            " # # "@,
            "#####"@,
            "#   #"@,
            "## ##"@,
            "#   #"@,
            "#  # "@,
            "#   #"@,
            "#  # "@,
        ],
        seq![
            "#### "@,
            "  #  "@,
            "  #  "@,
            "#####"@,
            "# # #"@,
            "#####"@,
            "###  "@,
            "#####"@,
            "#    "@,
        ],
        seq![
            "#   #"@,
            "  #  "@,
            "  #  "@,
            "#    "@,
            "#   #"@,
            "#   #"@,
            "#  # "@,
            "#    "@,
            "#    "@,
        ],
        seq![
            "#### "@,
            "   # "@,
            "  ## "@,
            " ### "@,
            "#   #"@,
            "#   #"@,
            "#   #"@,
            " ### "@,
            "#    "@,
        ],
    ]
}

/// The row of a letter of the logo.
fn logo_glyph(row: usize, letter: usize) -> (r: &'static str)
    requires
        row < 5,
        letter < 9,
    ensures
        r@ == logo_glyphs()[row as int][letter as int],
{
    match row {
        0 => match letter {
            0 => "#### ",
            1 => "#   #",
            2 => "  #  ",
            3 => " ####",
            4 => "#   #",
            5 => " ### ",
            6 => "#   #",
            7 => " ####",
            _ => "#### ",
        },
        1 => match letter {
            0 => "#   #",
            1 => " # # ",
            2 => "#####",
            3 => "#   #",
            4 => "## ##",
            5 => "#   #",
            6 => "#  # ",
            7 => "#   #",
            _ => "#  # ",
        },
        2 => match letter {
            0 => "#### ",
            1 => "  #  ",
            2 => "  #  ",
            3 => "#####",
            4 => "# # #",
            5 => "#####",
            6 => "###  ",
            7 => "#####",
            _ => "#    ",
        },
        3 => match letter {
            0 => "#   #",
            1 => "  #  ",
            2 => "  #  ",
            3 => "#    ",
            4 => "#   #",
            5 => "#   #",
            6 => "#  # ",
            7 => "#    ",
            _ => "#    ",
        },
        _ => match letter {
            0 => "#### ",
            1 => "   # ",
            2 => "  ## ",
            3 => " ### ",
            4 => "#   #",
            5 => "#   #",
            6 => "#   #",
            7 => " ### ",
            _ => "#    ",
        },
    }
}

/// The logo: each row with two spaces between the letters, without white space at its end.
pub open spec fn logo_text() -> Seq<char> {
    join(logo_glyphs().map_values(|row: Seq<Seq<char>>| trim_end(join(row, "  "@))), "\n"@)
}

/// The logo: each row with two spaces between the letters, without white space at its end.
pub fn logo_art() -> (r: String)
    ensures
        r@ == logo_text(),
{
    let ghost goal = logo_glyphs().map_values(|row: Seq<Seq<char>>| trim_end(join(row, "  "@)));
    let mut rows: Vec<String> = Vec::new();
    let mut i: usize = 0;
    while i < 5
        invariant
            i <= 5,
            goal.len() == 5,
            goal == logo_glyphs().map_values(|row: Seq<Seq<char>>| trim_end(join(row, "  "@))),
            texts(rows@) == goal.take(i as int),
        decreases 5 - i,
    {
        let ghost row = logo_glyphs()[i as int];
        let mut letters: Vec<String> = Vec::new();
        let mut j: usize = 0;
        while j < 9
            invariant
                i < 5,
                j <= 9,
                row == logo_glyphs()[i as int],
                row.len() == 9,
                texts(letters@) == row.take(j as int),
            decreases 9 - j,
        {
            let ghost before = texts(letters@);
            letters.push(owned(logo_glyph(i, j)));
            assert(texts(letters@) =~= before.push(row[j as int]));
            assert(row.take(j + 1) =~= before.push(row[j as int]));
            j += 1;
        }
        assert(row.take(9) =~= row);
        let ghost before = texts(rows@);
        rows.push(trimmed_end(joined(letters.as_slice(), "  ").as_str()));
        assert(texts(rows@) =~= before.push(goal[i as int]));
        assert(goal.take(i + 1) =~= before.push(goal[i as int]));
        i += 1;
    }
    assert(goal.take(5) =~= goal);
    joined(rows.as_slice(), "\n")
}

/// From how many characters on a tool output is cut.
pub const TRUNCATE_AT: usize = 200;

/// The text on one line.
pub open spec fn one_line(s: Seq<char>) -> Seq<char> {
    trim(s.map_values(|c: char| if c == '\n' || c == '\r' { ' ' } else { c }))
}

fn collapse(s: &str) -> (r: String)
    ensures
        r@ == one_line(s@),
{
    let cs = chars_of(s);
    let ghost goal = s@.map_values(|c: char| if c == '\n' || c == '\r' { ' ' } else { c });
    let mut out: Vec<char> = Vec::new();
    let mut i: usize = 0;
    while i < cs.len()
        invariant
            i <= cs@.len(),
            cs@ == s@,
            goal == s@.map_values(|c: char| if c == '\n' || c == '\r' { ' ' } else { c }),
            out@ == goal.take(i as int),
        decreases cs@.len() - i,
    {
        let c = cs[i];
        out.push(if c == '\n' || c == '\r' { ' ' } else { c });
        assert(out@ =~= goal.take(i + 1));
        i += 1;
    }
    assert(goal.take(cs@.len() as int) =~= goal);
    trimmed(string_of(out.as_slice()).as_str())
}

/// How many tenths of a unit `n` is, rounded to the nearest; between two, to the even one.
pub open spec fn tenths(n: nat, unit: nat) -> nat {
    let whole = n * 10 / unit;
    let left = n * 10 % unit;
    if 2 * left > unit || (2 * left == unit && whole % 2 == 1) {
        whole + 1
    } else {
        whole
    }
}

/// A number of tenths, with one digit behind the point.
pub open spec fn one_digit(t: nat) -> Seq<char> {
    decimal(t / 10) + "."@ + decimal(t % 10)
}

/// A number of bytes in words.
pub open spec fn size_text(bytes: nat) -> Seq<char> {
    if bytes < 1024 {
        decimal(bytes) + " B"@
    } else if bytes < 1024 * 1024 {
        one_digit(tenths(bytes, 1024)) + " KB"@
    } else {
        one_digit(tenths(bytes, 1024 * 1024)) + " MB"@
    }
}

fn in_tenths(n: usize, unit: u32) -> (r: String)
    requires
        unit >= 1024,
    ensures
        r@ == one_digit(tenths(n as nat, unit as nat)),
{
    let scaled: u128 = n as u128 * 10;
    let whole: u128 = scaled / unit as u128;
    let left: u128 = scaled % unit as u128;
    proof {
        assert(whole * unit <= scaled) by (nonlinear_arith)
            requires
                unit >= 1024,
                whole == scaled / unit as u128,
        ;
        assert(whole * 1024 <= whole * unit) by (nonlinear_arith)
            requires
                unit >= 1024,
                whole >= 0,
        ;
    }
    let t: u64 = if 2 * left > unit as u128 || (2 * left == unit as u128 && whole % 2 == 1) {
        (whole + 1) as u64
    } else {
        whole as u64
    };
    concat3(decimal_u64(t / 10).as_str(), ".", decimal_u64(t % 10).as_str())
}

/// A number of bytes in words.
pub fn size_words(bytes: usize) -> (r: String)
    ensures
        r@ == size_text(bytes as nat),
{
    if bytes < 1024 {
        concat2(decimal_usize(bytes).as_str(), " B")
    } else if bytes < 1024 * 1024 {
        concat2(in_tenths(bytes, 1024).as_str(), " KB")
    } else {
        concat2(in_tenths(bytes, 1024 * 1024).as_str(), " MB")
    }
}

/// What stands in front of a tool output.
pub open spec fn tool_prefix(name: Seq<char>, size: Seq<char>) -> Seq<char> {
    "↳ "@ + name + " 结果 ("@ + size + "): "@
}

/// A tool output on one line, cut where it is long.
pub open spec fn tool_content(result: Seq<char>) -> Seq<char> {
    let line = one_line(result);
    if line.len() > TRUNCATE_AT {
        first_chars(line, TRUNCATE_AT as int) + "…"@
    } else {
        line
    }
}

/// What is said of a tool output that was cut.
pub open spec fn cut_note(total: nat) -> Seq<char> {
    "  (已截断，共 "@ + decimal(total) + " 字符)"@
}

// ---- what each method writes ----

/// A line and its end are written and made visible.
pub open spec fn line_ops(line: Seq<char>) -> Seq<Op> {
    seq![Op::Write(line), Op::Write("\n"@), Op::Flush]
}

/// A text is written and made visible.
pub open spec fn text_ops(text: Seq<char>) -> Seq<Op> {
    seq![Op::Write(text), Op::Flush]
}

/// Of so many steps all but the last went well, and `r` came of the last: that is what `after` has
/// more than `before`.
pub open spec fn all_well_but(
    before: Seq<Result<(), std::io::Error>>,
    after: Seq<Result<(), std::io::Error>>,
    steps: int,
    r: Result<(), std::io::Error>,
) -> bool {
    &&& after.len() == before.len() + steps
    &&& before.is_prefix_of(after)
    &&& forall|i: int| before.len() <= i < after.len() - 1 ==> (#[trigger] after[i]) is Ok
    &&& after.last() == r
}

/// What a backend was told to do, and what came of each of it.
#[verifier::ext_equal]
pub struct Log {
    pub ops: Seq<Op>,
    pub came: Seq<Result<(), std::io::Error>>,
}

/// What the backend was told to do, and what came of each of it.
pub open spec fn log_of<B: Backend>(b: B) -> Log {
    Log { ops: b.received(), came: b.outcomes() }
}

/// What a line adds to what the backend was told and to what came of it: all of its three steps, or
/// those up to the first that failed. What came of the last of them is the result.
pub open spec fn line_tried(
    before: Log,
    after: Log,
    line: Seq<char>,
    r: Result<(), std::io::Error>,
) -> bool {
    exists|steps: int|
        1 <= steps <= 3 && (steps < 3 ==> r is Err) && after.ops == before.ops
            + #[trigger] line_ops(line).take(steps) && all_well_but(
            before.came,
            after.came,
            steps,
            r,
        )
}

/// A line was emitted with this result.
pub open spec fn emitted<B: Backend>(
    before: B,
    after: B,
    line: Seq<char>,
    r: Result<(), std::io::Error>,
) -> bool {
    line_tried(log_of(before), log_of(after), line, r)
}

/// Where nothing failed, all steps of the line were taken.
pub proof fn lemma_emitted_whole<B: Backend>(
    before: B,
    after: B,
    line: Seq<char>,
    r: Result<(), std::io::Error>,
)
    requires
        emitted(before, after, line, r),
        r is Ok,
    ensures
        after.received() == before.received() + line_ops(line),
{
    assert(line_ops(line).take(3) =~= line_ops(line));
}

/// The lines were emitted one after the other, each also where one before it failed.
pub open spec fn lines_tried(before: Log, after: Log, lines: Seq<Seq<char>>) -> bool
    decreases lines.len(),
{
    if lines.len() == 0 {
        after == before
    } else {
        exists|mid: Log|
            lines_tried(before, mid, lines.drop_last()) && #[trigger] line_tried(
                mid,
                after,
                lines.last(),
                after.came.last(),
            )
    }
}

proof fn lemma_one_more_line(before: Log, mid: Log, after: Log, lines: Seq<Seq<char>>, line: Seq<char>)
    requires
        lines_tried(before, mid, lines),
        line_tried(mid, after, line, after.came.last()),
    ensures
        lines_tried(before, after, lines.push(line)),
{
    let all = lines.push(line);
    assert(all.drop_last() =~= lines);
    assert(line_tried(mid, after, all.last(), after.came.last()));
}

proof fn lemma_first_line(before: Log, after: Log, line: Seq<char>)
    requires
        line_tried(before, after, line, after.came.last()),
    ensures
        lines_tried(before, after, seq![line]),
{
    lemma_one_more_line(before, before, after, Seq::empty(), line);
    assert(Seq::empty().push(line) =~= seq![line]);
}

proof fn lemma_two_lines(before: Log, mid: Log, after: Log, first: Seq<char>, second: Seq<char>)
    requires
        line_tried(before, mid, first, mid.came.last()),
        line_tried(mid, after, second, after.came.last()),
    ensures
        lines_tried(before, after, seq![first, second]),
{
    lemma_first_line(before, mid, first);
    lemma_one_more_line(before, mid, after, seq![first], second);
    assert(seq![first].push(second) =~= seq![first, second]);
}

/// A text was written and flushed, the second also where the first failed.
pub open spec fn text_tried(before: Log, after: Log, text: Seq<char>) -> bool {
    &&& after.ops == before.ops + text_ops(text)
    &&& after.came.len() == before.came.len() + 2
    &&& before.came.is_prefix_of(after.came)
}

/// What a line in a colour adds.
pub open spec fn adds_line<B: Backend>(
    before: B,
    after: B,
    msg: Seq<char>,
    t: Tint,
    colorize: bool,
) -> bool {
    &&& after.reliable() == before.reliable()
    &&& exists|s: Seq<char>| #[trigger]
        tinted(s, msg, tint_code(t)) && (!colorize ==> s == msg) && emitted(before, after, s, after.outcomes().last()) && (
        before.reliable() ==> after.received() == before.received() + line_ops(s))
}

/// What a refused command adds.
pub open spec fn adds_blocked<B: Backend>(
    before: B,
    after: B,
    pattern: Seq<char>,
    colorize: bool,
) -> bool {
    let plain = "[blocked] '"@ + pattern + "' is on the deny list"@;
    &&& after.reliable() == before.reliable()
    &&& exists|s: Seq<char>| #[trigger]
        tinted(s, plain, tint_code(Tint::Red)) && (!colorize ==> s == plain) && lines_tried(log_of(before), log_of(after), seq![""@, s]) && (before.reliable()
            ==> after.received() == before.received() + line_ops(""@) + line_ops(s))
}

/// What the prompt adds.
pub open spec fn adds_prompt<B: Backend>(before: B, after: B, colorize: bool) -> bool {
    &&& after.reliable() == before.reliable()
    &&& exists|s: Seq<char>| #[trigger]
        tinted(s, " >> "@, tint_code(Tint::Cyan)) && (!colorize ==> s == " >> "@) && text_tried(log_of(before), log_of(after), s)
}

/// What a permission request adds.
pub open spec fn adds_permission<B: Backend>(
    before: B,
    after: B,
    reason: Seq<char>,
    name: Seq<char>,
    input: JsonV,
    colorize: bool,
) -> bool {
    let plain = "[permission] "@ + reason;
    let tool = "   Tool: "@ + name + "("@ + json_compact(input) + ")"@;
    &&& after.reliable() == before.reliable()
    &&& exists|s: Seq<char>, mid: Log| #[trigger]
        tinted(s, plain, tint_code(Tint::Yellow)) && (!colorize ==> s == plain) && lines_tried(
            log_of(before),
            mid,
            seq![""@, s, tool],
        ) && #[trigger] text_tried(mid, log_of(after), "   Allow? [y/N] "@) && (before.reliable()
            ==> after.received() == before.received() + line_ops(""@) + line_ops(s) + line_ops(tool)
            + text_ops("   Allow? [y/N] "@))
}

/// What a heading and the text below it add.
pub open spec fn adds_heading<B: Backend>(
    before: B,
    after: B,
    title: Seq<char>,
    body: Seq<char>,
    colorize: bool,
) -> bool {
    let plain = "## "@ + title;
    &&& after.reliable() == before.reliable()
    &&& exists|s: Seq<char>| #[trigger]
        tinted(s, plain, tint_code(Tint::Yellow)) && (!colorize ==> s == plain) && lines_tried(
            log_of(before),
            log_of(after),
            seq![""@, s, body],
        ) && (before.reliable() ==> after.received() == before.received() + line_ops(""@)
            + line_ops(s) + line_ops(body))
}

/// The lines of a tool output: the output itself and, where it was cut, the note on it.
pub open spec fn tool_lines(p: Seq<char>, n: Seq<char>, result: Seq<char>) -> Seq<Seq<char>> {
    if one_line(result).len() > TRUNCATE_AT {
        seq![p + tool_content(result), n]
    } else {
        seq![p + tool_content(result)]
    }
}

/// What a tool output adds.
pub open spec fn adds_tool_output<B: Backend>(
    before: B,
    after: B,
    name: Seq<char>,
    result: Seq<char>,
    colorize: bool,
) -> bool {
    let prefix = tool_prefix(name, size_text(byte_len(result) as nat));
    let note = cut_note(one_line(result).len());
    &&& after.reliable() == before.reliable()
    &&& exists|p: Seq<char>, n: Seq<char>| #[trigger]
        tinted(p, prefix, tint_code(Tint::Dimmed)) && #[trigger] tinted(
            n,
            note,
            tint_code(Tint::Dimmed),
        ) && (!colorize ==> p == prefix && n == note) && lines_tried(log_of(before), log_of(after), tool_lines(p, n, result)) && (
        before.reliable() ==> after.received() == before.received() + line_ops(
            p + tool_content(result),
        ) + if one_line(result).len() > TRUNCATE_AT {
            line_ops(n)
        } else {
            Seq::empty()
        })
}

/// Coordinator: holds a backend, writes output line by line. The methods that end in `_with` take the
/// switch for colours; the others ask `colored` for it.
#[derive(Debug)]
pub struct Coordinator<B: Backend> {
    pub backend: B,
}

impl<B: Backend> Coordinator<B> {
    pub fn new(backend: B) -> (r: Self)
        ensures
            r.backend == backend,
    {
        Coordinator { backend }
    }

    /// Emits one full output line. Where a step fails, no other is taken, and its error comes back.
    pub fn emit(&mut self, line: &str) -> (r: Result<(), std::io::Error>)
        ensures
            emitted(old(self).backend, final(self).backend, line@, r),
            final(self).backend.reliable() == old(self).backend.reliable(),
            old(self).backend.reliable() ==> r is Ok && final(self).backend.received()
                == old(self).backend.received() + line_ops(line@),
    {
        let ghost before = self.backend.received();
        let ghost came = self.backend.outcomes();
        let ghost ops = line_ops(line@);
        match self.backend.write_str(line) {
            Err(e) => {
                assert(self.backend.received() =~= before + ops.take(1));
                assert(all_well_but(came, self.backend.outcomes(), 1, Err(e)));
                return Err(e);
            },
            Ok(()) => {},
        }
        match self.backend.write_str("\n") {
            Err(e) => {
                assert(self.backend.received() =~= before + ops.take(2));
                assert(all_well_but(came, self.backend.outcomes(), 2, Err(e)));
                return Err(e);
            },
            Ok(()) => {},
        }
        let r = self.backend.flush();
        assert(self.backend.received() =~= before + ops);
        assert(ops.take(3) =~= ops);
        assert(all_well_but(came, self.backend.outcomes(), 3, r));
        r
    }

    /// Plain banner line.
    pub fn banner(&mut self, msg: &str)
        ensures
            emitted(
                old(self).backend,
                final(self).backend,
                msg@,
                final(self).backend.outcomes().last(),
            ),
            final(self).backend.reliable() == old(self).backend.reliable(),
            old(self).backend.reliable() ==> final(self).backend.received()
                == old(self).backend.received() + line_ops(msg@),
    {
        let _ = self.emit(msg);
    }

    /// Blank line.
    pub fn blank(&mut self)
        ensures
            emitted(
                old(self).backend,
                final(self).backend,
                ""@,
                final(self).backend.outcomes().last(),
            ),
            final(self).backend.reliable() == old(self).backend.reliable(),
            old(self).backend.reliable() ==> final(self).backend.received()
                == old(self).backend.received() + line_ops(""@),
    {
        let _ = self.emit("");
    }

    fn line_with(&mut self, msg: &str, t: Tint, colorize: bool)
        ensures
            adds_line(
                old(self).backend,
                final(self).backend,
                msg@,
                t,
                colorize,
            ),
    {
        let line = tint(msg, t, colorize);
        let _ = self.emit(line.as_str());
    }

    /// Status line, in yellow.
    pub fn status_with(&mut self, msg: &str, colorize: bool)
        ensures
            adds_line(
                old(self).backend,
                final(self).backend,
                msg@,
                Tint::Yellow,
                colorize,
            ),
    {
        self.line_with(msg, Tint::Yellow, colorize);
    }

    /// Status line, in yellow.
    pub fn status(&mut self, msg: &str)
        ensures
            adds_line(
                old(self).backend,
                final(self).backend,
                msg@,
                Tint::Yellow,
                true,
            ),
    {
        self.status_with(msg, should_colorize());
    }

    /// Error line, in red.
    pub fn error_with(&mut self, msg: &str, colorize: bool)
        ensures
            adds_line(
                old(self).backend,
                final(self).backend,
                msg@,
                Tint::Red,
                colorize,
            ),
    {
        self.line_with(msg, Tint::Red, colorize);
    }

    /// Error line, in red.
    pub fn error(&mut self, msg: &str)
        ensures
            adds_line(
                old(self).backend,
                final(self).backend,
                msg@,
                Tint::Red,
                true,
            ),
    {
        self.error_with(msg, should_colorize());
    }

    /// Notice of a refused command, below a blank line.
    pub fn blocked_with(&mut self, pattern: &str, colorize: bool)
        ensures
            adds_blocked(
                old(self).backend,
                final(self).backend,
                pattern@,
                colorize,
            ),
    {
        let ghost b0 = log_of(self.backend);
        self.blank();
        let ghost b1 = log_of(self.backend);
        let msg = concat3("[blocked] '", pattern, "' is on the deny list");
        let line = tint(msg.as_str(), Tint::Red, colorize);
        let _ = self.emit(line.as_str());
        proof {
            lemma_two_lines(b0, b1, log_of(self.backend), ""@, line@);
        }
    }

    /// Notice of a refused command, below a blank line.
    pub fn blocked(&mut self, pattern: &str)
        ensures
            adds_blocked(
                old(self).backend,
                final(self).backend,
                pattern@,
                true,
            ),
    {
        self.blocked_with(pattern, should_colorize());
    }

    /// The prompt, in cyan and without a line break.
    pub fn prompt_with(&mut self, colorize: bool)
        ensures
            adds_prompt(
                old(self).backend,
                final(self).backend,
                colorize,
            ),
    {
        let ghost before = log_of(self.backend);
        let s = tint(" >> ", Tint::Cyan, colorize);
        let _ = self.backend.write_str(s.as_str());
        let _ = self.backend.flush();
        assert(self.backend.received() =~= before.ops + text_ops(s@));
        assert(text_tried(before, log_of(self.backend), s@));
    }

    /// The prompt, in cyan and without a line break.
    pub fn prompt(&mut self)
        ensures
            adds_prompt(
                old(self).backend,
                final(self).backend,
                true,
            ),
    {
        self.prompt_with(should_colorize());
    }

    /// Permission request.
    pub fn permission_with(&mut self, reason: &str, name: &str, input: &Json, colorize: bool)
        ensures
            adds_permission(
                old(self).backend,
                final(self).backend,
                reason@,
                name@,
                input@,
                colorize,
            ),
    {
        let ghost b0 = log_of(self.backend);
        self.blank();
        let ghost b1 = log_of(self.backend);
        let plain = concat2("[permission] ", reason);
        let line = tint(plain.as_str(), Tint::Yellow, colorize);
        let _ = self.emit(line.as_str());
        let ghost b2 = log_of(self.backend);
        let call = concat3("   Tool: ", name, "(");
        let tool = concat3(call.as_str(), json_text(input).as_str(), ")");
        let _ = self.emit(tool.as_str());
        let ghost b3 = log_of(self.backend);
        proof {
            lemma_two_lines(b0, b1, b2, ""@, line@);
            lemma_one_more_line(b0, b2, b3, seq![""@, line@], tool@);
            assert(seq![""@, line@].push(tool@) =~= seq![""@, line@, tool@]);
        }
        let _ = self.backend.write_str("   Allow? [y/N] ");
        let _ = self.backend.flush();
        assert(self.backend.received() =~= b3.ops + text_ops("   Allow? [y/N] "@));
        assert(text_tried(b3, log_of(self.backend), "   Allow? [y/N] "@));
    }

    /// Permission request.
    pub fn permission(&mut self, reason: &str, name: &str, input: &Json)
        ensures
            adds_permission(
                old(self).backend,
                final(self).backend,
                reason@,
                name@,
                input@,
                true,
            ),
    {
        self.permission_with(reason, name, input, should_colorize());
    }

    /// The startup logo, in cyan; plain where colours are off.
    pub fn logo_with(&mut self, colorize: bool)
        ensures
            adds_line(
                old(self).backend,
                final(self).backend,
                logo_text(),
                Tint::Cyan,
                colorize,
            ),
    {
        let art = logo_art();
        self.line_with(art.as_str(), Tint::Cyan, colorize);
    }

    /// The startup logo, in cyan.
    pub fn logo(&mut self)
        ensures
            adds_line(
                old(self).backend,
                final(self).backend,
                logo_text(),
                Tint::Cyan,
                true,
            ),
    {
        self.logo_with(should_colorize());
    }

    /// A heading in yellow below a blank line, and the text below it.
    pub fn heading_with(&mut self, title: &str, body: &str, colorize: bool)
        ensures
            adds_heading(
                old(self).backend,
                final(self).backend,
                title@,
                body@,
                colorize,
            ),
    {
        let ghost b0 = log_of(self.backend);
        self.blank();
        let ghost b1 = log_of(self.backend);
        let plain = concat2("## ", title);
        let line = tint(plain.as_str(), Tint::Yellow, colorize);
        let _ = self.emit(line.as_str());
        let ghost b2 = log_of(self.backend);
        let _ = self.emit(body);
        proof {
            lemma_two_lines(b0, b1, b2, ""@, line@);
            lemma_one_more_line(b0, b2, log_of(self.backend), seq![""@, line@], body@);
            assert(seq![""@, line@].push(body@) =~= seq![""@, line@, body@]);
        }
    }

    /// A heading in yellow below a blank line, and the text below it.
    pub fn heading(&mut self, title: &str, body: &str)
        ensures
            adds_heading(
                old(self).backend,
                final(self).backend,
                title@,
                body@,
                true,
            ),
    {
        self.heading_with(title, body, should_colorize());
    }

    /// Tool output on one line, cut where it is long.
    pub fn tool_output_with(&mut self, name: &str, result: &str, colorize: bool)
        ensures
            adds_tool_output(
                old(self).backend,
                final(self).backend,
                name@,
                result@,
                colorize,
            ),
    {
        let bytes: usize = byte_count(result);
        let size = size_words(bytes);
        let collapsed = collapse(result);
        let total: usize = char_count(collapsed.as_str());
        let content = if total > TRUNCATE_AT {
            concat2(take_chars(collapsed.as_str(), TRUNCATE_AT).as_str(), "…")
        } else {
            collapsed
        };
        let head = concat3("↳ ", name, " 结果 (");
        let plain = concat3(head.as_str(), size.as_str(), "): ");
        let prefix = tint(plain.as_str(), Tint::Dimmed, colorize);
        let ghost before = self.backend.received();
        let ghost b0 = log_of(self.backend);
        let line = concat2(prefix.as_str(), content.as_str());
        let _ = self.emit(line.as_str());
        let ghost b1 = log_of(self.backend);
        proof {
            lemma_first_line(b0, b1, line@);
        }
        let note = concat3("  (已截断，共 ", decimal_usize(total).as_str(), " 字符)");
        let told = tint(note.as_str(), Tint::Dimmed, colorize);
        if total > TRUNCATE_AT {
            let _ = self.emit(told.as_str());
        }
        proof {
            if total > TRUNCATE_AT {
                lemma_two_lines(b0, b1, log_of(self.backend), line@, told@);
            }
            let ops = line_ops(prefix@ + tool_content(result@));
            assert(before + ops + Seq::<Op>::empty() =~= before + ops);
            assert(shown(
                prefix@,
                tool_prefix(name@, size_text(byte_len(result@) as nat)),
                Tint::Dimmed,
                colorize,
            ));
            assert(shown(told@, cut_note(one_line(result@).len()), Tint::Dimmed, colorize));
        }
    }

    /// Tool output on one line, cut where it is long; in colour only where the caller wants it too.
    pub fn render_tool_output(&mut self, name: &str, result: &str, color: bool)
        ensures
            adds_tool_output(
                old(self).backend,
                final(self).backend,
                name@,
                result@,
                color,
            ),
    {
        self.tool_output_with(name, result, color && should_colorize());
    }
}

} // verus!
