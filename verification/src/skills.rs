//! Skills: each directory below the skills directory that holds a `SKILL.md` is a skill. Names and
//! descriptions stand in the system prompt; the whole text is given to the model on request.

use vstd::prelude::*;

use crate::frontmatter::{split_front, split_frontmatter, strip_bom, without_bom};
use crate::text::{
    blank, char_count, chars_of, concat2, concat3, is_blank, join, joined,
    lemma_text_lt_irreflexive, lemma_text_lt_total, lemma_text_lt_transitive, lines, normal_spaces,
    normalize_ws, split_lines, str_eq, str_lt, substring, text_lt, texts, trim, trimmed,
};

verus! {

broadcast use vstd::string::group_string_axioms;

/// A skill: name, description, full `SKILL.md` text.
#[derive(Debug)]
pub struct Skill {
    pub name: String,
    pub description: String,
    /// The whole text, with its head.
    pub content: String,
}

/// A skill, with texts as sequences of characters.
#[verifier::ext_equal]
pub struct SkillV {
    pub name: Seq<char>,
    pub description: Seq<char>,
    pub content: Seq<char>,
}

impl View for Skill {
    type V = SkillV;

    open spec fn view(&self) -> SkillV {
        SkillV { name: self.name@, description: self.description@, content: self.content@ }
    }
}

pub open spec fn skills_view(s: Seq<Skill>) -> Seq<SkillV> {
    s.map_values(|k: Skill| k@)
}

/// The fields of a skill's head that count.
#[derive(Debug)]
pub struct SkillFrontmatter {
    pub name: Option<String>,
    pub description: Option<String>,
}

/// The fields of a skill's head, with texts as sequences of characters.
#[verifier::ext_equal]
pub struct SkillHeadV {
    pub name: Option<Seq<char>>,
    pub description: Option<Seq<char>>,
}

impl View for SkillFrontmatter {
    type V = SkillHeadV;

    open spec fn view(&self) -> SkillHeadV {
        SkillHeadV { name: self.name.deep_view(), description: self.description.deep_view() }
    }
}

impl Default for SkillFrontmatter {
    fn default() -> (r: Self)
        ensures
            r@ == (SkillHeadV { name: None, description: None }),
    {
        SkillFrontmatter { name: None, description: None }
    }
}

impl SkillFrontmatter {
    /// A copy of the fields.
    pub fn dup(&self) -> (r: Self)
        ensures
            r@ == self@,
    {
        let name = match &self.name {
            Some(t) => Some(t.clone()),
            None => None,
        };
        let description = match &self.description {
            Some(t) => Some(t.clone()),
            None => None,
        };
        SkillFrontmatter { name, description }
    }
}

/// The view of an optional head.
pub open spec fn head_view(h: Option<SkillFrontmatter>) -> Option<SkillHeadV> {
    match h {
        Some(f) => Some(f@),
        None => None,
    }
}

/// The head and the body of a skill's text, where `parsed` is what the text between the marks gives,
/// if it gives anything: without a head, or where it gives nothing, all of the text is the body.
pub open spec fn head_and_body(
    text: Seq<char>,
    parsed: Option<SkillHeadV>,
) -> (SkillHeadV, Seq<char>) {
    match (split_front(text), parsed) {
        (Some((_, body)), Some(head)) => (head, body),
        _ => (SkillHeadV { name: None, description: None }, without_bom(text)),
    }
}

/// The head and the body of a skill's text, where `parsed` is what the text between the marks gives,
/// if it gives anything.
pub fn parse_frontmatter(text: &str, parsed: Option<SkillFrontmatter>) -> (r: (
    SkillFrontmatter,
    String,
))
    ensures
        (r.0@, r.1@) == head_and_body(text@, head_view(parsed)),
{
    match (split_frontmatter(text), parsed) {
        (Some((_, body)), Some(head)) => (head, body),
        _ => (SkillFrontmatter { name: None, description: None }, strip_bom(text)),
    }
}

/// A character that may stand in front of a description.
pub open spec fn heading_mark(c: char) -> bool {
    c == '#' || c == ' ' || c == '\t'
}

/// The text without heading marks at its start.
pub open spec fn without_marks(s: Seq<char>) -> Seq<char>
    decreases s.len(),
{
    if s.len() > 0 && heading_mark(s[0]) {
        without_marks(s.skip(1))
    } else {
        s
    }
}

/// The description on one line: without heading marks, with single spaces between the words.
pub open spec fn plain_description(s: Seq<char>) -> Seq<char> {
    normal_spaces(trim(without_marks(s)))
}

/// The description on one line: without heading marks, with single spaces between the words.
pub fn normalize_description(desc: &str) -> (r: String)
    ensures
        r@ == plain_description(desc@),
{
    let cs = chars_of(desc);
    let mut i: usize = 0;
    assert(desc@.skip(0) =~= desc@);
    while i < cs.len() && (cs[i] == '#' || cs[i] == ' ' || cs[i] == '\t')
        invariant
            i <= cs@.len(),
            cs@ == desc@,
            without_marks(desc@) == without_marks(desc@.skip(i as int)),
        decreases cs@.len() - i,
    {
        assert(desc@.skip(i as int).skip(1) =~= desc@.skip(i + 1));
        i += 1;
    }
    let rest = substring(cs.as_slice(), i, cs.len());
    assert(rest@ =~= desc@.skip(i as int));
    normalize_ws(trimmed(rest.as_str()).as_str())
}

/// The first of the lines that is not blank.
pub open spec fn first_line(ls: Seq<Seq<char>>) -> Option<Seq<char>>
    decreases ls.len(),
{
    if ls.len() == 0 {
        None
    } else if !blank(ls[0]) {
        Some(ls[0])
    } else {
        first_line(ls.skip(1))
    }
}

fn find_first_line(ls: &[String]) -> (r: Option<String>)
    ensures
        r.deep_view() == first_line(texts(ls@)),
{
    let ghost all = texts(ls@);
    assert(all.skip(0) =~= all);
    let mut i: usize = 0;
    while i < ls.len()
        invariant
            i <= ls@.len(),
            all == texts(ls@),
            first_line(all) == first_line(all.skip(i as int)),
        decreases ls@.len() - i,
    {
        assert(all.skip(i as int)[0] == ls@[i as int]@);
        if !is_blank(ls[i].as_str()) {
            return Some(ls[i].clone());
        }
        assert(all.skip(i as int).skip(1) =~= all.skip(i + 1));
        i += 1;
    }
    None
}

/// The skill in the directory `dir_name` whose text is `content`.
pub open spec fn skill_of(
    dir_name: Seq<char>,
    content: Seq<char>,
    parsed: Option<SkillHeadV>,
) -> SkillV {
    let (head, body) = head_and_body(content, parsed);
    let name = match head.name {
        Some(n) => if trim(n).len() > 0 {
            trim(n)
        } else {
            dir_name
        },
        None => dir_name,
    };
    let of_body = match first_line(lines(body)) {
        Some(l) => plain_description(l),
        None => Seq::empty(),
    };
    let description = match head.description {
        Some(d) => if plain_description(d).len() > 0 {
            plain_description(d)
        } else {
            of_body
        },
        None => of_body,
    };
    SkillV { name, description, content }
}

/// A `SKILL.md` that was read: the name of its directory, its text, and what the text between the
/// marks of its head gives, if it gives anything.
#[derive(Debug)]
pub struct SkillManifest {
    pub dir_name: String,
    pub content: String,
    pub parsed: Option<SkillFrontmatter>,
}

/// The skill of a `SKILL.md`.
pub open spec fn manifest_skill(m: SkillManifest) -> SkillV {
    skill_of(m.dir_name@, m.content@, head_view(m.parsed))
}

/// The skill of a `SKILL.md`.
pub fn read_skill(m: &SkillManifest) -> (r: Skill)
    ensures
        r@ == manifest_skill(*m),
{
    let parsed = match &m.parsed {
        Some(f) => Some(f.dup()),
        None => None,
    };
    let (head, body) = parse_frontmatter(m.content.as_str(), parsed);
    let name = match &head.name {
        Some(n) => {
            let t = trimmed(n.as_str());
            if char_count(t.as_str()) > 0 {
                t
            } else {
                m.dir_name.clone()
            }
        },
        None => m.dir_name.clone(),
    };
    let of_head = match &head.description {
        Some(d) => normalize_description(d.as_str()),
        None => String::new(),
    };
    let description = if char_count(of_head.as_str()) > 0 {
        of_head
    } else {
        let ls = split_lines(body.as_str());
        match find_first_line(ls.as_slice()) {
            Some(l) => normalize_description(l.as_str()),
            None => String::new(),
        }
    };
    let r = Skill { name, description, content: m.content.clone() };
    assert(r@ =~= manifest_skill(*m));
    r
}

/// The skills with `x` in its place; a skill of the same name gives way.
pub open spec fn put_skill(skills: Seq<SkillV>, x: SkillV) -> Seq<SkillV>
    decreases skills.len(),
{
    if skills.len() == 0 {
        seq![x]
    } else if skills[0].name == x.name {
        seq![x] + skills.skip(1)
    } else if text_lt(x.name, skills[0].name) {
        seq![x] + skills
    } else {
        seq![skills[0]] + put_skill(skills.skip(1), x)
    }
}

/// The skills of the manifests, by name; a later one replaces an earlier one of the same name.
pub open spec fn scanned(manifests: Seq<SkillManifest>) -> Seq<SkillV>
    decreases manifests.len(),
{
    if manifests.len() == 0 {
        Seq::empty()
    } else {
        put_skill(scanned(manifests.drop_last()), manifest_skill(manifests.last()))
    }
}

/// The names ascend, so no name occurs twice.
pub open spec fn names_ascend(skills: Seq<SkillV>) -> bool {
    forall|i: int, j: int|
        0 <= i < j < skills.len() ==> text_lt(
            (#[trigger] skills[i]).name,
            (#[trigger] skills[j]).name,
        )
}

/// The first skill of the name.
pub open spec fn find_skill(skills: Seq<SkillV>, name: Seq<char>) -> Option<SkillV>
    decreases skills.len(),
{
    if skills.len() == 0 {
        None
    } else if skills[0].name == name {
        Some(skills[0])
    } else {
        find_skill(skills.skip(1), name)
    }
}

/// The line of a skill in the system prompt.
pub open spec fn catalog_line(s: SkillV) -> Seq<char> {
    "- "@ + s.name + ": "@ + s.description
}

/// The lines of the skills in the system prompt.
pub open spec fn catalog_text(skills: Seq<SkillV>) -> Seq<char> {
    join(skills.map_values(|s: SkillV| catalog_line(s)), "\n"@)
}

/// The names of the skills.
pub open spec fn skill_names(skills: Seq<SkillV>) -> Seq<Seq<char>> {
    skills.map_values(|s: SkillV| s.name)
}

/// The whole text of the named skill, or an error that lists the skills there are.
pub open spec fn loaded_text(skills: Seq<SkillV>, name: Seq<char>) -> Seq<char> {
    match find_skill(skills, name) {
        Some(s) => s.content,
        None => {
            let all = join(skill_names(skills), ", "@);
            "Error: Unknown skill '"@ + name + "'. Available: "@ + if all.len() == 0 {
                "none"@
            } else {
                all
            }
        },
    }
}

/// Skill loader: the skills by name.
#[derive(Debug)]
pub struct SkillLoader {
    skills: Vec<Skill>,
}

impl View for SkillLoader {
    type V = Seq<SkillV>;

    closed spec fn view(&self) -> Seq<SkillV> {
        skills_view(self.skills@)
    }
}

fn insert_skill(skills: &mut Vec<Skill>, x: Skill)
    ensures
        skills_view(final(skills)@) == put_skill(skills_view(old(skills)@), x@),
{
    let ghost all = skills_view(skills@);
    let ghost start = skills@;
    assert(all.skip(0) =~= all);
    assert(all.take(0) + put_skill(all.skip(0), x@) =~= put_skill(all, x@));
    let mut i: usize = 0;
    while i < skills.len()
        invariant
            i <= skills@.len(),
            skills@ == start,
            start == old(skills)@,
            all == skills_view(start),
            put_skill(all, x@) == all.take(i as int) + put_skill(all.skip(i as int), x@),
        decreases skills@.len() - i,
    {
        assert(all.skip(i as int)[0] == skills@[i as int]@);
        assert(all.skip(i as int).skip(1) =~= all.skip(i + 1));
        if str_eq(skills[i].name.as_str(), x.name.as_str()) {
            skills.set(i, x);
            assert(skills_view(skills@) =~= all.take(i as int) + (seq![x@] + all.skip(i + 1)));
            return;
        }
        if str_lt(x.name.as_str(), skills[i].name.as_str()) {
            skills.insert(i, x);
            assert(skills_view(skills@) =~= all.take(i as int) + (seq![x@] + all.skip(i as int)));
            return;
        }
        assert(all.take(i as int) + (seq![all[i as int]] + put_skill(all.skip(i + 1), x@))
            =~= all.take(i + 1) + put_skill(all.skip(i + 1), x@));
        i += 1;
    }
    skills.push(x);
    assert(skills_view(skills@) =~= all.take(i as int) + seq![x@]);
}

impl SkillLoader {
    #[verifier::type_invariant]
    spec fn by_name(self) -> bool {
        names_ascend(skills_view(self.skills@))
    }

    /// The skills of the `SKILL.md` files that were read.
    pub fn scan(manifests: &[SkillManifest]) -> (r: SkillLoader)
        ensures
            r@ == scanned(manifests@),
            names_ascend(r@),
    {
        let mut skills: Vec<Skill> = Vec::new();
        assert(skills_view(skills@) =~= Seq::empty());
        let mut i: usize = 0;
        while i < manifests.len()
            invariant
                i <= manifests@.len(),
                skills_view(skills@) == scanned(manifests@.take(i as int)),
            decreases manifests@.len() - i,
        {
            assert(manifests@.take(i + 1).drop_last() =~= manifests@.take(i as int));
            assert(manifests@.take(i + 1).last() == manifests@[i as int]);
            let skill = read_skill(&manifests[i]);
            insert_skill(&mut skills, skill);
            i += 1;
        }
        assert(manifests@.take(manifests@.len() as int) =~= manifests@);
        proof {
            lemma_scanned_ascend(manifests@);
        }
        SkillLoader { skills }
    }

    /// Number of skills.
    pub fn len(&self) -> (r: usize)
        ensures
            r == self@.len(),
    {
        self.skills.len()
    }

    /// Whether there are no skills.
    pub fn is_empty(&self) -> (r: bool)
        ensures
            r == (self@.len() == 0),
    {
        self.skills.len() == 0
    }

    /// A line for each skill, for the system prompt; nothing where there are none. The skills stand
    /// in the order of their names, no name twice.
    pub fn catalog(&self) -> (r: String)
        ensures
            r@ == catalog_text(self@),
            names_ascend(self@),
    {
        proof {
            use_type_invariant(&*self);
        }
        let ghost goal = self@.map_values(|s: SkillV| catalog_line(s));
        let mut out: Vec<String> = Vec::new();
        let mut i: usize = 0;
        while i < self.skills.len()
            invariant
                i <= self.skills@.len(),
                goal == self@.map_values(|s: SkillV| catalog_line(s)),
                texts(out@) == goal.take(i as int),
            decreases self.skills@.len() - i,
        {
            let ghost before = texts(out@);
            let head = concat3("- ", self.skills[i].name.as_str(), ": ");
            out.push(concat2(head.as_str(), self.skills[i].description.as_str()));
            assert(texts(out@) =~= before.push(goal[i as int]));
            assert(goal.take(i + 1) =~= before.push(goal[i as int]));
            i += 1;
        }
        assert(goal.take(self.skills@.len() as int) =~= goal);
        joined(out.as_slice(), "\n")
    }

    /// The whole text of the named skill, or an error that lists the skills there are.
    pub fn load(&self, name: &str) -> (r: String)
        ensures
            r@ == loaded_text(self@, name@),
    {
        let ghost all = self@;
        let ghost goal = skill_names(all);
        assert(all.skip(0) =~= all);
        let mut names: Vec<String> = Vec::new();
        let mut i: usize = 0;
        while i < self.skills.len()
            invariant
                i <= self.skills@.len(),
                all == self@,
                goal == skill_names(all),
                texts(names@) == goal.take(i as int),
                find_skill(all, name@) == find_skill(all.skip(i as int), name@),
            decreases self.skills@.len() - i,
        {
            let skill = &self.skills[i];
            assert(all.skip(i as int)[0] == skill@);
            if str_eq(skill.name.as_str(), name) {
                return skill.content.clone();
            }
            assert(all.skip(i as int).skip(1) =~= all.skip(i + 1));
            let ghost before = texts(names@);
            names.push(skill.name.clone());
            assert(texts(names@) =~= before.push(goal[i as int]));
            assert(goal.take(i + 1) =~= before.push(goal[i as int]));
            i += 1;
        }
        assert(goal.take(self.skills@.len() as int) =~= goal);
        let available = joined(names.as_slice(), ", ");
        let head = concat3("Error: Unknown skill '", name, "'. Available: ");
        if char_count(available.as_str()) == 0 {
            concat2(head.as_str(), "none")
        } else {
            concat2(head.as_str(), available.as_str())
        }
    }
}

// ---- laws ----

proof fn lemma_put_skill_ascend(skills: Seq<SkillV>, x: SkillV)
    requires
        names_ascend(skills),
    ensures
        names_ascend(put_skill(skills, x)),
        forall|i: int|
            0 <= i < put_skill(skills, x).len() ==> {
                let s = #[trigger] put_skill(skills, x)[i];
                s == x || skills.contains(s)
            },
    decreases skills.len(),
{
    let after = put_skill(skills, x);
    if skills.len() == 0 {
    } else if skills[0].name == x.name {
        assert forall|i: int, j: int| 0 <= i < j < after.len() implies text_lt(
            (#[trigger] after[i]).name,
            (#[trigger] after[j]).name,
        ) by {
            assert(text_lt(skills[i].name, skills[j].name));
        }
        assert forall|i: int| 0 <= i < after.len() implies ({
            let s = #[trigger] after[i];
            s == x || skills.contains(s)
        }) by {
            if i > 0 {
                assert(after[i] == skills[i]);
            }
        }
    } else if text_lt(x.name, skills[0].name) {
        assert forall|i: int, j: int| 0 <= i < j < after.len() implies text_lt(
            (#[trigger] after[i]).name,
            (#[trigger] after[j]).name,
        ) by {
            if i == 0 {
                if j > 1 {
                    assert(text_lt(skills[0].name, skills[j - 1].name));
                    lemma_text_lt_transitive(x.name, skills[0].name, skills[j - 1].name);
                }
            } else {
                assert(text_lt(skills[i - 1].name, skills[j - 1].name));
            }
        }
        assert forall|i: int| 0 <= i < after.len() implies ({
            let s = #[trigger] after[i];
            s == x || skills.contains(s)
        }) by {
            if i > 0 {
                assert(after[i] == skills[i - 1]);
            }
        }
    } else {
        let rest = skills.skip(1);
        assert forall|i: int, j: int| 0 <= i < j < rest.len() implies text_lt(
            (#[trigger] rest[i]).name,
            (#[trigger] rest[j]).name,
        ) by {
            assert(text_lt(skills[i + 1].name, skills[j + 1].name));
        }
        lemma_put_skill_ascend(rest, x);
        lemma_text_lt_total(x.name, skills[0].name);
        let tail = put_skill(rest, x);
        assert forall|i: int| 0 <= i < tail.len() implies text_lt(
            skills[0].name,
            (#[trigger] tail[i]).name,
        ) by {
            if tail[i] != x {
                let k = choose|k: int| 0 <= k < rest.len() && rest[k] == tail[i];
                assert(text_lt(skills[0].name, skills[k + 1].name));
            }
        }
        assert forall|i: int, j: int| 0 <= i < j < after.len() implies text_lt(
            (#[trigger] after[i]).name,
            (#[trigger] after[j]).name,
        ) by {
            if i == 0 {
                assert(after[j] == tail[j - 1]);
            } else {
                assert(text_lt(tail[i - 1].name, tail[j - 1].name));
            }
        }
        assert forall|i: int| 0 <= i < after.len() implies ({
            let s = #[trigger] after[i];
            s == x || skills.contains(s)
        }) by {
            if i == 0 {
                assert(skills[0] == after[0]);
            } else if tail[i - 1] != x {
                let k = choose|k: int| 0 <= k < rest.len() && rest[k] == tail[i - 1];
                assert(skills[k + 1] == after[i]);
            }
        }
    }
}

proof fn lemma_scanned_ascend(manifests: Seq<SkillManifest>)
    ensures
        names_ascend(scanned(manifests)),
    decreases manifests.len(),
{
    if manifests.len() > 0 {
        lemma_scanned_ascend(manifests.drop_last());
        lemma_put_skill_ascend(
            scanned(manifests.drop_last()),
            manifest_skill(manifests.last()),
        );
    }
}

proof fn lemma_put_then_find(skills: Seq<SkillV>, x: SkillV)
    ensures
        find_skill(put_skill(skills, x), x.name) == Some(x),
    decreases skills.len(),
{
    let after = put_skill(skills, x);
    if skills.len() > 0 && skills[0].name != x.name && !text_lt(x.name, skills[0].name) {
        lemma_put_then_find(skills.skip(1), x);
        assert(after[0] == skills[0]);
        assert(after.skip(1) =~= put_skill(skills.skip(1), x));
    } else {
        assert(after[0] == x);
    }
}

/// Of the skills of one name the last that was scanned is the one that is loaded, and loading it
/// gives its whole text.
pub proof fn lemma_last_scanned_is_loaded(manifests: Seq<SkillManifest>)
    requires
        manifests.len() > 0,
    ensures
        loaded_text(scanned(manifests), manifest_skill(manifests.last()).name)
            == manifests.last().content@,
{
    lemma_put_then_find(scanned(manifests.drop_last()), manifest_skill(manifests.last()));
}

/// Where the names ascend, no two skills have the same name.
pub proof fn lemma_names_distinct(skills: Seq<SkillV>, i: int, j: int)
    requires
        names_ascend(skills),
        0 <= i < j < skills.len(),
    ensures
        skills[i].name != skills[j].name,
{
    assert(text_lt(skills[i].name, skills[j].name));
    lemma_text_lt_irreflexive(skills[i].name);
}

} // verus!
