//! Memory records on disk: one Markdown file with a YAML block for each, and an index of them.

use vstd::prelude::*;

use crate::error::AgentError;
use crate::frontmatter::{document, lemma_document_splits, split_front, split_frontmatter, strip_bom, without_bom};
use crate::text::{
    blank, chars_of, concat2, concat3, contains, is_blank, join, joined, lines, normal_spaces,
    normalize_ws, owned, split_lines, str_ends_with, str_eq, str_lt, substring, text_lt, texts,
    trim, trimmed,
};

verus! {

broadcast use vstd::string::group_string_axioms;

/// Metadata for one memory record (used in the index listing).
#[derive(Debug, Clone)]
pub struct IndexEntry {
    pub filename: String,
    pub name: String,
    pub description: String,
}

/// The mathematical value of an index entry.
#[verifier::ext_equal]
pub struct EntryV {
    pub filename: Seq<char>,
    pub name: Seq<char>,
    pub description: Seq<char>,
}

impl View for IndexEntry {
    type V = EntryV;

    open spec fn view(&self) -> EntryV {
        EntryV { filename: self.filename@, name: self.name@, description: self.description@ }
    }
}

/// The values of a list of entries.
pub open spec fn entries_view(s: Seq<IndexEntry>) -> Seq<EntryV> {
    s.map_values(|e: IndexEntry| e@)
}

/// A full memory document.
#[derive(Debug, Clone)]
pub struct MemoryDoc {
    pub name: String,
    pub mem_type: String,
    pub description: String,
    pub body: String,
}

/// The mathematical value of a document.
#[verifier::ext_equal]
pub struct DocV {
    pub name: Seq<char>,
    pub mem_type: Seq<char>,
    pub description: Seq<char>,
    pub body: Seq<char>,
}

impl View for MemoryDoc {
    type V = DocV;

    open spec fn view(&self) -> DocV {
        DocV {
            name: self.name@,
            mem_type: self.mem_type@,
            description: self.description@,
            body: self.body@,
        }
    }
}

/// The fields of a record's YAML block; others are ignored.
#[derive(Debug, Clone)]
pub struct MemoryFrontmatter {
    pub name: Option<String>,
    pub description: Option<String>,
    pub mem_type: Option<String>,
}

/// The mathematical value of a record's fields.
#[verifier::ext_equal]
pub struct FrontV {
    pub name: Option<Seq<char>>,
    pub description: Option<Seq<char>>,
    pub mem_type: Option<Seq<char>>,
}

impl View for MemoryFrontmatter {
    type V = FrontV;

    open spec fn view(&self) -> FrontV {
        FrontV {
            name: self.name.deep_view(),
            description: self.description.deep_view(),
            mem_type: self.mem_type.deep_view(),
        }
    }
}

/// No fields at all.
pub open spec fn no_fields() -> FrontV {
    FrontV { name: None, description: None, mem_type: None }
}

impl Default for MemoryFrontmatter {
    fn default() -> (r: Self)
        ensures
            r@ == no_fields(),
    {
        MemoryFrontmatter { name: None, description: None, mem_type: None }
    }
}

// ---- keys ----

/// The name of the index file.
pub const MEMORY_INDEX_FILENAME: &'static str = "MEMORY.md";

/// A plain file name: one component, neither `.` nor `..`.
pub open spec fn plain_file_name(key: Seq<char>) -> bool {
    key.len() > 0 && !key.contains('/') && key != "."@ && key != ".."@
}

fn is_plain_file_name(key: &str) -> (r: bool)
    ensures
        r == plain_file_name(key@),
{
    let cs = chars_of(key);
    let mut i: usize = 0;
    while i < cs.len()
        invariant
            i <= cs@.len(),
            cs@ == key@,
            forall|k: int| 0 <= k < i ==> cs@[k] != '/',
        decreases cs@.len() - i,
    {
        if cs[i] == '/' {
            assert(key@[i as int] == '/');
            return false;
        }
        i = i + 1;
    }
    cs.len() > 0 && !str_eq(key, ".") && !str_eq(key, "..")
}

/// A file that holds a record: a plain name that ends in `.md` and is not the index.
pub open spec fn record_name(key: Seq<char>) -> bool {
    key != MEMORY_INDEX_FILENAME@ && ".md"@.is_suffix_of(key) && plain_file_name(key)
}

/// Whether a file of this name holds a record.
pub fn is_record_name(key: &str) -> (r: bool)
    ensures
        r == record_name(key@),
{
    !str_eq(key, MEMORY_INDEX_FILENAME) && str_ends_with(key, ".md") && is_plain_file_name(key)
}

/// Storage abstraction for memory records: where they are kept is up to the implementation, for
/// instance the files of a directory or a key-value store. It reads and writes; what is written, and
/// what is made of what was read, is decided by [`crate::memory::MemoryStore`] and by the functions of
/// this module on plain values. Nothing is assumed of an implementation here.
pub trait MemoryStorage: Send + Sync {
    /// Read a memory record by key (its file name, such as `user-pref.md`).
    fn read(&self, key: &str) -> Option<String>;

    /// Write a memory record. Overwrites if `key` already exists.
    fn write(&self, key: &str, doc: &MemoryDoc) -> Result<(), AgentError>;

    /// Delete a memory record by key. Does nothing if `key` does not exist.
    fn delete(&self, key: &str) -> Result<(), AgentError>;

    /// List all index entries, sorted by file name.
    fn list(&self) -> Result<Vec<IndexEntry>, AgentError>;

    /// Read the index file's contents (empty if it is missing).
    fn read_index(&self) -> String;

    /// Write the index file from a list of entries.
    fn write_index(&self, entries: &[IndexEntry]) -> Result<(), AgentError>;
}

/// The file system storage of records knows its directory.
pub struct FsMemoryStorage {
    memory_dir: String,
}

impl FsMemoryStorage {
    pub closed spec fn dir_v(&self) -> Seq<char> {
        self.memory_dir@
    }

    pub fn new(memory_dir: String) -> (r: Self)
        ensures
            r.dir_v() == memory_dir@,
    {
        FsMemoryStorage { memory_dir }
    }

    /// The memory directory path.
    pub fn dir(&self) -> (r: &str)
        ensures
            r@ == self.dir_v(),
    {
        self.memory_dir.as_str()
    }

    /// Validate a key: no path separators, no `..`/`.`, not the index file itself.
    pub fn validate_key(key: &str) -> (r: Result<(), String>)
        ensures
            if !plain_file_name(key@) {
                r matches Err(m) && m@ == "Invalid memory filename: "@ + key@
            } else if key@ == MEMORY_INDEX_FILENAME@ {
                r matches Err(m) && m@ == "The memory index is not a memory record"@
            } else {
                r is Ok
            },
    {
        if !is_plain_file_name(key) {
            return Err(concat2("Invalid memory filename: ", key));
        }
        if str_eq(key, MEMORY_INDEX_FILENAME) {
            return Err(owned("The memory index is not a memory record"));
        }
        Ok(())
    }
}

// ---- documents ----

/// The YAML text that `serde_yaml` writes for a mapping of texts to texts.
pub uninterp spec fn yaml_text(fields: Seq<(Seq<char>, Seq<char>)>) -> Seq<char>;

/// The views of a list of pairs.
pub open spec fn pairs_view(s: Seq<(String, String)>) -> Seq<(Seq<char>, Seq<char>)> {
    s.map_values(|f: (String, String)| (f.0@, f.1@))
}

/// `serde_yaml::to_string` on a mapping with these fields in this order: a function of the fields
/// alone.
#[verifier::external_body]
fn yaml_mapping(fields: &Vec<(String, String)>) -> (r: String)
    ensures
        r@ == yaml_text(pairs_view(fields@)),
{
    let mapping: serde_yaml::Mapping = fields
        .iter()
        .map(|f| (f.0.as_str().into(), f.1.as_str().into()))
        .collect();
    serde_yaml::to_string(&mapping).unwrap_or_default()
}

/// The YAML block of a record, without white space around it.
pub open spec fn front_block(name: Seq<char>, mem_type: Seq<char>, description: Seq<char>) -> Seq<
    char,
> {
    trim(
        yaml_text(seq![("name"@, name), ("description"@, description), ("type"@, mem_type)]),
    )
}

/// The document of a record.
pub open spec fn memory_document_v(d: DocV) -> Seq<char> {
    document(front_block(d.name, d.mem_type, d.description), trim(d.body))
}

/// The document written to disk for a record.
pub fn memory_document(name: &str, mem_type: &str, description: &str, body: &str) -> (r: String)
    ensures
        r@ == memory_document_v(
            (DocV { name: name@, mem_type: mem_type@, description: description@, body: body@ }),
        ),
{
    let mut fields: Vec<(String, String)> = Vec::new();
    fields.push((owned("name"), owned(name)));
    fields.push((owned("description"), owned(description)));
    fields.push((owned("type"), owned(mem_type)));
    assert(pairs_view(fields@) =~= seq![
        ("name"@, name@),
        ("description"@, description@),
        ("type"@, mem_type@),
    ]);
    let block = trimmed(yaml_mapping(&fields).as_str());
    let text = trimmed(body);
    let mut out = owned("---\n");
    out.append(block.as_str());
    out.append("\n---\n\n");
    out.append(text.as_str());
    out.append("\n");
    out
}

/// The fields and the body of a record whose YAML block reads as `parsed`; a record without a
/// readable block is all body.
pub open spec fn record_parts(text: Seq<char>, parsed: Option<FrontV>) -> (FrontV, Seq<char>) {
    match split_front(text) {
        Some((block, body)) => match parsed {
            Some(f) => (f, body),
            None => (no_fields(), without_bom(text)),
        },
        None => (no_fields(), without_bom(text)),
    }
}

/// The fields and the body of a record. `parsed` is how its YAML block reads, where it can be
/// read.
pub fn parse_frontmatter(text: &str, parsed: Option<MemoryFrontmatter>) -> (r: (
    MemoryFrontmatter,
    String,
))
    ensures
        (r.0@, r.1@) == record_parts(
            text@,
            match parsed {
                Some(f) => Some(f@),
                None => None,
            },
        ),
{
    match split_frontmatter(text) {
        Some((_, body)) => match parsed {
            Some(f) => (f, body),
            None => (MemoryFrontmatter::default(), strip_bom(text)),
        },
        None => (MemoryFrontmatter::default(), strip_bom(text)),
    }
}

/// What is written is read back: where the YAML block of a document holds no mark and the YAML
/// reader gives back the fields, so does the record, and its body is the written one without white
/// space around it.
pub proof fn lemma_document_reads_back(d: DocV)
    requires
        !contains(front_block(d.name, d.mem_type, d.description), "---"@),
        !blank(d.body),
    ensures
        ({
            let f = FrontV {
                name: Some(d.name),
                description: Some(d.description),
                mem_type: Some(d.mem_type),
            };
            record_parts(memory_document_v(d), Some(f)) == (f, trim(d.body) + "\n"@)
        }),
{
    let b = trim(d.body);
    lemma_trim_first(d.body);
    lemma_document_splits(front_block(d.name, d.mem_type, d.description), b);
}

proof fn lemma_trim_end_first(s: Seq<char>)
    ensures
        crate::text::trim_end(s).len() > 0 ==> crate::text::trim_end(s)[0] == s[0],
    decreases s.len(),
{
    if s.len() > 0 && crate::text::white_space(s.last()) {
        lemma_trim_end_first(s.drop_last());
    }
}

proof fn lemma_trim_start_first(s: Seq<char>)
    ensures
        crate::text::trim_start(s).len() > 0 ==> !crate::text::white_space(
            crate::text::trim_start(s)[0],
        ),
    decreases s.len(),
{
    if s.len() > 0 && crate::text::white_space(s[0]) {
        lemma_trim_start_first(s.skip(1));
    }
}

/// A trimmed text begins with no white space.
pub proof fn lemma_trim_first(s: Seq<char>)
    ensures
        trim(s).len() > 0 ==> !crate::text::white_space(trim(s)[0]),
{
    lemma_trim_start_first(s);
    lemma_trim_end_first(crate::text::trim_start(s));
}

// ---- listing ----

/// A record file as it was read. `empty` says that the file holds nothing at all.
#[derive(Debug, Clone)]
pub struct MemoryFile {
    pub filename: String,
    pub frontmatter: MemoryFrontmatter,
    pub body: String,
    pub empty: bool,
}

/// The mathematical value of a record file.
#[verifier::ext_equal]
pub struct FileV {
    pub filename: Seq<char>,
    pub front: FrontV,
    pub body: Seq<char>,
    pub empty: bool,
}

impl View for MemoryFile {
    type V = FileV;

    open spec fn view(&self) -> FileV {
        FileV {
            filename: self.filename@,
            front: self.frontmatter@,
            body: self.body@,
            empty: self.empty,
        }
    }
}

/// The values of a list of files.
pub open spec fn files_view(s: Seq<MemoryFile>) -> Seq<FileV> {
    s.map_values(|f: MemoryFile| f@)
}

/// The last index of `c` in `s`, or -1.
pub open spec fn last_index(s: Seq<char>, c: char) -> int
    decreases s.len(),
{
    if s.len() == 0 {
        -1
    } else if s.last() == c {
        s.len() - 1
    } else {
        last_index(s.drop_last(), c)
    }
}

/// The file name without its extension; a name whose only dot comes first has none.
pub open spec fn file_stem(name: Seq<char>) -> Seq<char> {
    let k = last_index(name, '.');
    if k <= 0 {
        name
    } else {
        name.take(k)
    }
}

/// The file name without its extension.
pub fn stem(name: &str) -> (r: String)
    ensures
        r@ == file_stem(name@),
{
    let cs = chars_of(name);
    let mut i: usize = cs.len();
    assert(cs@.take(i as int) =~= cs@);
    while i > 0 && cs[i - 1] != '.'
        invariant
            i <= cs@.len(),
            cs@ == name@,
            last_index(name@, '.') == last_index(cs@.take(i as int), '.'),
        decreases i,
    {
        assert(cs@.take(i as int).drop_last() =~= cs@.take(i - 1));
        i = i - 1;
    }
    if i <= 1 {
        owned(name)
    } else {
        assert(cs@.take(i as int).last() == '.');
        substring(&cs, 0, i - 1)
    }
}

/// The first line that is not blank, or no text.
pub open spec fn first_line(ls: Seq<Seq<char>>) -> Seq<char>
    decreases ls.len(),
{
    if ls.len() == 0 {
        Seq::empty()
    } else if !blank(ls[0]) {
        ls[0]
    } else {
        first_line(ls.skip(1))
    }
}

fn first_text_line(body: &str) -> (r: String)
    ensures
        r@ == first_line(lines(body@)),
{
    let ls = split_lines(body);
    let ghost all = texts(ls@);
    let mut i: usize = 0;
    assert(all.skip(0) =~= all);
    while i < ls.len()
        invariant
            i <= ls@.len(),
            all == texts(ls@),
            all == lines(body@),
            first_line(all) == first_line(all.skip(i as int)),
        decreases ls@.len() - i,
    {
        assert(all.skip(i as int)[0] == ls@[i as int]@);
        assert(all.skip(i as int).skip(1) =~= all.skip(i + 1));
        if !is_blank(ls[i].as_str()) {
            return ls[i].clone();
        }
        i = i + 1;
    }
    String::new()
}

/// The field's words, where it has any.
pub open spec fn field_or(f: Option<Seq<char>>, otherwise: Seq<char>) -> Seq<char> {
    match f {
        Some(t) => if blank(t) {
            normal_spaces(otherwise)
        } else {
            normal_spaces(trim(t))
        },
        None => normal_spaces(otherwise),
    }
}

/// The index entry of a file: its own name and description, else its stem and its first line.
pub open spec fn entry_of(f: FileV) -> EntryV {
    EntryV {
        filename: f.filename,
        name: field_or(f.front.name, file_stem(f.filename)),
        description: field_or(f.front.description, first_line(lines(f.body))),
    }
}

fn text_or(f: &Option<String>, otherwise: &str) -> (r: String)
    ensures
        r@ == field_or(f.deep_view(), otherwise@),
{
    match f {
        Some(t) => {
            let s = trimmed(t.as_str());
            if s.as_str().is_empty() {
                normalize_ws(otherwise)
            } else {
                normalize_ws(s.as_str())
            }
        },
        None => normalize_ws(otherwise),
    }
}

/// The index entry of a file.
pub fn index_entry(f: &MemoryFile) -> (r: IndexEntry)
    ensures
        r@ == entry_of(f@),
{
    let s = stem(f.filename.as_str());
    let line = first_text_line(f.body.as_str());
    IndexEntry {
        filename: f.filename.clone(),
        name: text_or(&f.frontmatter.name, s.as_str()),
        description: text_or(&f.frontmatter.description, line.as_str()),
    }
}

/// `e` put into a list that is ordered by file name, behind those of its own name.
pub open spec fn insert_entry(s: Seq<EntryV>, e: EntryV) -> Seq<EntryV>
    decreases s.len(),
{
    if s.len() == 0 || !text_lt(e.filename, s.last().filename) {
        s.push(e)
    } else {
        insert_entry(s.drop_last(), e).push(s.last())
    }
}

/// The entries of the record files, ordered by file name.
pub open spec fn listing(files: Seq<FileV>) -> Seq<EntryV>
    decreases files.len(),
{
    if files.len() == 0 {
        Seq::empty()
    } else if record_name(files.last().filename) {
        insert_entry(listing(files.drop_last()), entry_of(files.last()))
    } else {
        listing(files.drop_last())
    }
}

/// File names never go back along the list.
pub open spec fn ordered(s: Seq<EntryV>) -> bool {
    forall|i: int, j: int|
        0 <= i < j < s.len() ==> !text_lt((#[trigger] s[j]).filename, (#[trigger] s[i]).filename)
}

proof fn lemma_insert_entry(s: Seq<EntryV>, e: EntryV)
    requires
        ordered(s),
    ensures
        ordered(insert_entry(s, e)),
        insert_entry(s, e).to_multiset() == s.to_multiset().insert(e),
        insert_entry(s, e).len() == s.len() + 1,
    decreases s.len(),
{
    broadcast use vstd::seq_lib::group_to_multiset_ensures;

    if s.len() == 0 {
    } else if !text_lt(e.filename, s.last().filename) {
        let r = s.push(e);
        assert forall|i: int, j: int| 0 <= i < j < r.len() implies !text_lt(
            (#[trigger] r[j]).filename,
            (#[trigger] r[i]).filename,
        ) by {
            if j == s.len() {
                if i < s.len() - 1 && text_lt(e.filename, s[i].filename) {
                    let last = s[s.len() - 1];
                    assert(!text_lt(last.filename, s[i].filename));
                    crate::text::lemma_text_lt_total(last.filename, s[i].filename);
                    if text_lt(s[i].filename, last.filename) {
                        crate::text::lemma_text_lt_transitive(
                            e.filename,
                            s[i].filename,
                            last.filename,
                        );
                    }
                }
            } else {
                assert(r[j] == s[j] && r[i] == s[i]);
            }
        }
    } else {
        let front = s.drop_last();
        assert(ordered(front)) by {
            assert forall|i: int, j: int| 0 <= i < j < front.len() implies !text_lt(
                (#[trigger] front[j]).filename,
                (#[trigger] front[i]).filename,
            ) by {
                assert(front[j] == s[j] && front[i] == s[i]);
            }
        }
        lemma_insert_entry(front, e);
        let mid = insert_entry(front, e);
        let r = mid.push(s.last());
        assert(s =~= front.push(s.last()));
        lemma_insert_upper(front, e, s.last().filename);
        assert forall|i: int, j: int| 0 <= i < j < r.len() implies !text_lt(
            (#[trigger] r[j]).filename,
            (#[trigger] r[i]).filename,
        ) by {
            if j < mid.len() {
                assert(r[j] == mid[j] && r[i] == mid[i]);
            } else {
                assert(r[i] == mid[i]);
            }
        }
    }
}

proof fn lemma_insert_upper(s: Seq<EntryV>, e: EntryV, top: Seq<char>)
    requires
        text_lt(e.filename, top),
        forall|i: int| 0 <= i < s.len() ==> !text_lt(top, (#[trigger] s[i]).filename),
    ensures
        forall|i: int|
            0 <= i < insert_entry(s, e).len() ==> !text_lt(
                top,
                (#[trigger] insert_entry(s, e)[i]).filename,
            ),
    decreases s.len(),
{
    if text_lt(top, e.filename) {
        crate::text::lemma_text_lt_transitive(top, e.filename, top);
        crate::text::lemma_text_lt_irreflexive(top);
    }
    let r = insert_entry(s, e);
    if s.len() == 0 || !text_lt(e.filename, s.last().filename) {
        assert forall|i: int| 0 <= i < r.len() implies !text_lt(top, (#[trigger] r[i]).filename) by {
            if i < s.len() {
                assert(r[i] == s[i]);
            }
        }
    } else {
        let front = s.drop_last();
        assert forall|i: int| 0 <= i < front.len() implies !text_lt(
            top,
            (#[trigger] front[i]).filename,
        ) by {
            assert(front[i] == s[i]);
        }
        lemma_insert_upper(front, e, top);
        assert forall|i: int| 0 <= i < r.len() implies !text_lt(top, (#[trigger] r[i]).filename) by {
            if i < r.len() - 1 {
                assert(r[i] == insert_entry(front, e)[i]);
            } else {
                assert(r[i] == s[s.len() - 1]);
            }
        }
    }
}

/// A listing is ordered by file name, whatever order the directory gave.
pub proof fn lemma_listing_ordered(files: Seq<FileV>)
    ensures
        ordered(listing(files)),
        listing(files).len() <= files.len(),
    decreases files.len(),
{
    if files.len() > 0 {
        lemma_listing_ordered(files.drop_last());
        if record_name(files.last().filename) {
            lemma_insert_entry(listing(files.drop_last()), entry_of(files.last()));
        }
    }
}

fn insert_sorted(v: &mut Vec<IndexEntry>, e: IndexEntry)
    ensures
        entries_view(final(v)@) == insert_entry(entries_view(old(v)@), e@),
{
    let ghost s = entries_view(v@);
    let mut p: usize = v.len();
    assert(s.take(p as int) =~= s);
    assert(insert_entry(s, e@) + s.skip(p as int) =~= insert_entry(s, e@));
    while p > 0 && str_lt(e.filename.as_str(), v[p - 1].filename.as_str())
        invariant
            p <= v@.len(),
            s == entries_view(v@),
            insert_entry(s, e@) == insert_entry(s.take(p as int), e@) + s.skip(p as int),
        decreases p,
    {
        proof {
            let t = s.take(p as int);
            assert(t.drop_last() =~= s.take(p - 1));
            assert(t.last() == s[p - 1]);
            assert(insert_entry(s.take(p - 1), e@).push(s[p - 1]) + s.skip(p as int)
                =~= insert_entry(s.take(p - 1), e@) + s.skip(p - 1));
        }
        p = p - 1;
    }
    proof {
        let t = s.take(p as int);
        if p > 0 {
            assert(t.last() == s[p - 1]);
        }
        assert(insert_entry(t, e@) == t.push(e@));
    }
    v.insert(p, e);
    assert(entries_view(v@) =~= s.take(p as int).push(e@) + s.skip(p as int));
}

/// The entries of the record files, ordered by file name.
pub fn list_entries(files: &[MemoryFile]) -> (r: Vec<IndexEntry>)
    ensures
        entries_view(r@) == listing(files_view(files@)),
{
    let mut out: Vec<IndexEntry> = Vec::new();
    let mut i: usize = 0;
    let ghost all = files_view(files@);
    assert(entries_view(out@) =~= listing(all.take(0)));
    while i < files.len()
        invariant
            i <= files@.len(),
            all == files_view(files@),
            entries_view(out@) == listing(all.take(i as int)),
        decreases files@.len() - i,
    {
        assert(all.take(i + 1).drop_last() =~= all.take(i as int));
        assert(all.take(i + 1).last() == files@[i as int]@);
        if is_record_name(files[i].filename.as_str()) {
            insert_sorted(&mut out, index_entry(&files[i]));
        }
        i = i + 1;
    }
    assert(all.take(files@.len() as int) =~= all);
    out
}

/// The line of an entry in the index.
pub open spec fn index_line(e: EntryV) -> Seq<char> {
    "- ["@ + e.name + "]("@ + e.filename + ") - "@ + e.description
}

/// The content of the index: a line for each entry.
pub open spec fn index_content_v(s: Seq<EntryV>) -> Seq<char> {
    if s.len() == 0 {
        Seq::empty()
    } else {
        join(s.map_values(|e: EntryV| index_line(e)), "\n"@) + "\n"@
    }
}

/// The content of the index: a line for each entry.
pub fn index_content(entries: &[IndexEntry]) -> (r: String)
    ensures
        r@ == index_content_v(entries_view(entries@)),
{
    if entries.len() == 0 {
        return String::new();
    }
    let mut ls: Vec<String> = Vec::new();
    let mut i: usize = 0;
    while i < entries.len()
        invariant
            i <= entries@.len(),
            ls@.len() == i,
            forall|k: int| 0 <= k < i ==> (#[trigger] ls@[k])@ == index_line(entries@[k]@),
        decreases entries@.len() - i,
    {
        let e = &entries[i];
        let mut line = concat3("- [", e.name.as_str(), "](");
        line.append(e.filename.as_str());
        line.append(") - ");
        line.append(e.description.as_str());
        ls.push(line);
        i = i + 1;
    }
    assert(texts(ls@) =~= entries_view(entries@).map_values(|e: EntryV| index_line(e)));
    concat2(joined(&ls, "\n").as_str(), "\n")
}

} // verus!
