//! A consolidation under way: the records are replaced step by step, and brought back where a step
//! fails. [`ConsolidateRun::next_step`] says what is to be done now, and [`ConsolidateRun::replied`]
//! takes what came of it.

use vstd::prelude::*;

use crate::memory::storage::{
    entries_view, files_view, FileV, IndexEntry, MemoryFile, MemoryFrontmatter,
};
use crate::memory::{
    after_steps, all_listed, candidate_doc, candidate_writes, candidates_of, candidates_view,
    deletions, dup_doc, first_array, kept_doc, kept_writes, lemma_replace_leaves_consolidated,
    lemma_restore_brings_back, record_file, replaces, steps_view, CandidateV, DocV, MemoryStore,
    StepV, StoreStep, ValidatedRecord,
};

verus! {

broadcast use vstd::string::group_string_axioms;

/// What is to be done with the store.
#[derive(Debug)]
pub enum StoreAction {
    /// List the records that are there.
    List,
    /// Take the step.
    Take(StoreStep),
    /// Write the index of the records that are there.
    Index,
}

/// The mathematical value of what is to be done.
#[verifier::ext_equal]
pub enum ActionV {
    List,
    Take(StepV),
    Index,
}

impl View for StoreAction {
    type V = ActionV;

    open spec fn view(&self) -> ActionV {
        match *self {
            StoreAction::List => ActionV::List,
            StoreAction::Take(step) => ActionV::Take(step@),
            StoreAction::Index => ActionV::Index,
        }
    }
}

/// What came of it.
#[derive(Debug)]
pub enum StoreReply {
    /// The records that are there.
    Listed(Vec<IndexEntry>),
    /// It is done.
    Done,
    /// It could not be done.
    Failed,
}

/// How far a consolidation has come.
#[derive(Clone, Copy, Debug, PartialEq, Eq, Structural)]
pub enum Phase {
    /// The records that go are listed.
    Listing,
    /// The records are replaced.
    Replacing,
    /// The new index is written.
    Indexing,
    /// A step has failed, and what is there is listed.
    ListingBack,
    /// The kept files are brought back.
    Restoring,
    /// Their index is written.
    IndexingBack,
    /// It is over: the records were replaced, or the kept files brought back.
    Over { replaced: bool },
}

/// The mathematical value of a consolidation under way: what is left to be done of the phase, the
/// records that are to be there in the end, and the files as they were.
#[verifier::ext_equal]
pub struct ConsolidateV {
    pub phase: Phase,
    pub todo: Seq<StepV>,
    pub records: Seq<CandidateV>,
    pub kept: Seq<FileV>,
}

impl ConsolidateV {
    /// Steps are left exactly while records are replaced or files brought back.
    pub open spec fn valid(self) -> bool {
        (self.phase == Phase::Replacing || self.phase == Phase::Restoring) <==> self.todo.len() > 0
    }
}

/// The files that hold anything.
pub open spec fn kept_files(files: Seq<FileV>) -> Seq<FileV>
    decreases files.len(),
{
    if files.len() == 0 {
        Seq::empty()
    } else {
        let rest = kept_files(files.drop_last());
        if files.last().empty {
            rest
        } else {
            rest.push(files.last())
        }
    }
}

/// A consolidation at its beginning.
pub open spec fn begun(records: Seq<CandidateV>, kept: Seq<FileV>) -> ConsolidateV {
    ConsolidateV { phase: Phase::Listing, todo: Seq::empty(), records, kept }
}

/// What is to be done now.
pub open spec fn asked(s: ConsolidateV) -> Option<ActionV> {
    match s.phase {
        Phase::Listing => Some(ActionV::List),
        Phase::Replacing => Some(ActionV::Take(s.todo[0])),
        Phase::Indexing => Some(ActionV::Index),
        Phase::ListingBack => Some(ActionV::List),
        Phase::Restoring => Some(ActionV::Take(s.todo[0])),
        Phase::IndexingBack => Some(ActionV::Index),
        Phase::Over { .. } => None,
    }
}

/// The steps are left of the phase; where none is, the index follows.
pub open spec fn under_way(s: ConsolidateV, phase: Phase, todo: Seq<StepV>) -> ConsolidateV {
    ConsolidateV {
        phase: if todo.len() > 0 {
            phase
        } else if phase == Phase::Replacing {
            Phase::Indexing
        } else {
            Phase::IndexingBack
        },
        todo,
        ..s
    }
}

/// Nothing is left of the phase, and this one follows.
pub open spec fn turned(s: ConsolidateV, phase: Phase) -> ConsolidateV {
    ConsolidateV { phase, todo: Seq::empty(), ..s }
}

/// What follows from what came of it. The first write or listing that fails, or the index, turns to
/// bringing the files back; a file that cannot be deleted is passed over. While files are brought
/// back, nothing stops it.
pub open spec fn after_reply(s: ConsolidateV, r: StoreReply) -> ConsolidateV {
    match s.phase {
        Phase::Listing => match r {
            StoreReply::Listed(entries) => under_way(
                s,
                Phase::Replacing,
                deletions(entries_view(entries@)) + candidate_writes(s.records),
            ),
            _ => turned(s, Phase::ListingBack),
        },
        Phase::Replacing => if r is Failed && s.todo[0] is Write {
            turned(s, Phase::ListingBack)
        } else {
            under_way(s, Phase::Replacing, s.todo.skip(1))
        },
        Phase::Indexing => if r is Failed {
            turned(s, Phase::ListingBack)
        } else {
            turned(s, Phase::Over { replaced: true })
        },
        Phase::ListingBack => under_way(
            s,
            Phase::Restoring,
            match r {
                StoreReply::Listed(entries) => deletions(entries_view(entries@)),
                _ => deletions(Seq::empty()),
            } + kept_writes(s.kept),
        ),
        Phase::Restoring => under_way(s, Phase::Restoring, s.todo.skip(1)),
        Phase::IndexingBack => turned(s, Phase::Over { replaced: false }),
        Phase::Over { .. } => s,
    }
}

/// How many records the store holds after the consolidation: none counts where it failed or is not
/// over.
pub open spec fn count_after(s: ConsolidateV) -> nat {
    if s.phase == (Phase::Over { replaced: true }) {
        s.records.len()
    } else {
        0
    }
}

/// A consolidation under way.
pub struct ConsolidateRun {
    phase: Phase,
    steps: Vec<StoreStep>,
    next: usize,
    records: Vec<ValidatedRecord>,
    kept: Vec<MemoryFile>,
}

impl View for ConsolidateRun {
    type V = ConsolidateV;

    closed spec fn view(&self) -> ConsolidateV {
        ConsolidateV {
            phase: self.phase,
            todo: steps_view(self.steps@).skip(self.next as int),
            records: candidates_view(self.records@),
            kept: files_view(self.kept@),
        }
    }
}

fn dup_step(step: &StoreStep) -> (r: StoreStep)
    ensures
        r@ == step@,
{
    match step {
        StoreStep::Delete { filename } => StoreStep::Delete { filename: filename.clone() },
        StoreStep::Write { filename, doc } => StoreStep::Write {
            filename: filename.clone(),
            doc: dup_doc(
                doc.name.as_str(),
                doc.mem_type.as_str(),
                doc.description.as_str(),
                doc.body.as_str(),
            ),
        },
    }
}

fn dup_text(t: &Option<String>) -> (r: Option<String>)
    ensures
        r.deep_view() == t.deep_view(),
{
    match t {
        Some(x) => Some(x.clone()),
        None => None,
    }
}

fn dup_file(f: &MemoryFile) -> (r: MemoryFile)
    ensures
        r@ == f@,
{
    MemoryFile {
        filename: f.filename.clone(),
        frontmatter: MemoryFrontmatter {
            name: dup_text(&f.frontmatter.name),
            description: dup_text(&f.frontmatter.description),
            mem_type: dup_text(&f.frontmatter.mem_type),
        },
        body: f.body.clone(),
        empty: f.empty,
    }
}

impl MemoryStore {
    /// Begins to replace the records by those that the model's answer leaves. `files` are the record
    /// files as they are now; those that hold anything are kept, so that they can be brought back.
    /// `None` where the answer leaves no records, or two of them share a slug.
    pub fn begin_consolidation(answer: &str, files: &[MemoryFile]) -> (r: Option<ConsolidateRun>)
        ensures
            ({
                let cs = candidates_of(first_array(answer@));
                match r {
                    Some(run) => replaces(cs) && run@ == begun(cs, kept_files(files_view(files@))),
                    None => !replaces(cs),
                }
            }),
    {
        let records = match MemoryStore::consolidate_memories(answer) {
            Some(v) => v,
            None => {
                return None;
            },
        };
        let ghost all = files_view(files@);
        let mut kept: Vec<MemoryFile> = Vec::new();
        assert(files_view(kept@) =~= Seq::empty());
        let mut i: usize = 0;
        while i < files.len()
            invariant
                i <= files@.len(),
                all == files_view(files@),
                files_view(kept@) == kept_files(all.take(i as int)),
            decreases files@.len() - i,
        {
            let ghost before = files_view(kept@);
            assert(all.take(i + 1).drop_last() =~= all.take(i as int));
            assert(all.take(i + 1).last() == files@[i as int]@);
            if !files[i].empty {
                let f = dup_file(&files[i]);
                kept.push(f);
                assert(files_view(kept@) =~= before.push(f@));
            }
            i += 1;
        }
        assert(all.take(files@.len() as int) =~= all);
        let steps: Vec<StoreStep> = Vec::new();
        let run = ConsolidateRun { phase: Phase::Listing, steps, next: 0, records, kept };
        assert(run@.todo =~= Seq::empty());
        Some(run)
    }
}

impl ConsolidateRun {
    #[verifier::type_invariant]
    spec fn steps_are_left(self) -> bool {
        &&& self.next <= self.steps@.len()
        &&& (self.phase == Phase::Replacing || self.phase == Phase::Restoring) <==> self.next
            < self.steps@.len()
    }

    /// What is to be done now; nothing where the consolidation is over.
    pub fn next_step(&self) -> (r: Option<StoreAction>)
        ensures
            self@.valid(),
            match r {
                Some(a) => asked(self@) == Some(a@),
                None => asked(self@) is None,
            },
    {
        proof {
            use_type_invariant(&*self);
        }
        match self.phase {
            Phase::Listing => Some(StoreAction::List),
            Phase::Replacing => Some(StoreAction::Take(dup_step(&self.steps[self.next]))),
            Phase::Indexing => Some(StoreAction::Index),
            Phase::ListingBack => Some(StoreAction::List),
            Phase::Restoring => Some(StoreAction::Take(dup_step(&self.steps[self.next]))),
            Phase::IndexingBack => Some(StoreAction::Index),
            Phase::Over { .. } => None,
        }
    }

    /// The phase follows, with these steps left of it.
    fn turn(&mut self, phase: Phase, steps: Vec<StoreStep>)
        requires
            (phase == Phase::Replacing || phase == Phase::Restoring) <==> steps@.len() > 0,
        ensures
            final(self)@ == (ConsolidateV { phase, todo: steps_view(steps@), ..old(self)@ }),
    {
        proof {
            use_type_invariant(&*self);
        }
        let mut records: Vec<ValidatedRecord> = Vec::new();
        let mut kept: Vec<MemoryFile> = Vec::new();
        std::mem::swap(&mut records, &mut self.records);
        std::mem::swap(&mut kept, &mut self.kept);
        *self = ConsolidateRun { phase, steps, next: 0, records, kept };
        assert(self@.todo =~= steps_view(steps@));
    }

    /// The steps are to be taken in the phase; where there are none, the index follows.
    fn set_out(&mut self, phase: Phase, steps: Vec<StoreStep>)
        requires
            phase == Phase::Replacing || phase == Phase::Restoring,
        ensures
            final(self)@ == under_way(old(self)@, phase, steps_view(steps@)),
    {
        if steps.len() > 0 {
            self.turn(phase, steps);
        } else if phase == Phase::Replacing {
            self.turn(Phase::Indexing, steps);
        } else {
            self.turn(Phase::IndexingBack, steps);
        }
    }

    /// One step of the phase is behind it.
    fn advance(&mut self)
        requires
            old(self)@.phase == Phase::Replacing || old(self)@.phase == Phase::Restoring,
        ensures
            final(self)@ == under_way(old(self)@, old(self)@.phase, old(self)@.todo.skip(1)),
    {
        proof {
            use_type_invariant(&*self);
        }
        let ghost start = self@;
        let phase = self.phase;
        let all: usize = self.steps.len();
        let next: usize = self.next + 1;
        if next < all {
            self.next = next;
            assert(self@.todo =~= start.todo.skip(1));
        } else {
            let none: Vec<StoreStep> = Vec::new();
            assert(steps_view(none@) =~= start.todo.skip(1));
            self.set_out(phase, none);
        }
    }

    /// What came of what was to be done.
    pub fn replied(&mut self, reply: StoreReply)
        ensures
            final(self)@ == after_reply(old(self)@, reply),
            final(self)@.valid(),
    {
        proof {
            use_type_invariant(&*self);
        }
        let none: Vec<StoreStep> = Vec::new();
        assert(steps_view(none@) =~= Seq::empty());
        match self.phase {
            Phase::Listing => match reply {
                StoreReply::Listed(entries) => {
                    let steps = MemoryStore::replace_records(&entries, &self.records);
                    self.set_out(Phase::Replacing, steps);
                },
                _ => self.turn(Phase::ListingBack, none),
            },
            Phase::Replacing => {
                let failed = match reply {
                    StoreReply::Failed => true,
                    _ => false,
                };
                let writes = match &self.steps[self.next] {
                    StoreStep::Write { .. } => true,
                    StoreStep::Delete { .. } => false,
                };
                if failed && writes {
                    self.turn(Phase::ListingBack, none);
                } else {
                    self.advance();
                }
            },
            Phase::Indexing => match reply {
                StoreReply::Failed => self.turn(Phase::ListingBack, none),
                _ => self.turn(Phase::Over { replaced: true }, none),
            },
            Phase::ListingBack => {
                let entries = match reply {
                    StoreReply::Listed(entries) => entries,
                    _ => Vec::new(),
                };
                let ghost listed = entries_view(entries@);
                assert(entries@.len() == 0 ==> listed =~= Seq::empty());
                let steps = MemoryStore::restore_from_snapshot(&entries, &self.kept);
                self.set_out(Phase::Restoring, steps);
            },
            Phase::Restoring => self.advance(),
            Phase::IndexingBack => self.turn(Phase::Over { replaced: false }, none),
            Phase::Over { .. } => {},
        }
        proof {
            use_type_invariant(&*self);
        }
    }

    /// How many records the store holds after the consolidation; none counts where it failed or is
    /// not over.
    pub fn consolidated(&self) -> (r: usize)
        ensures
            r == count_after(self@),
    {
        match self.phase {
            Phase::Over { replaced: true } => self.records.len(),
            _ => 0,
        }
    }
}

// ---- laws ----

/// A listing, a write or an index that fails turns to bringing the files back; a deletion that fails
/// does not.
pub proof fn lemma_first_failure_turns_back(s: ConsolidateV)
    requires
        s.valid(),
    ensures
        s.phase == Phase::Listing || s.phase == Phase::Indexing || (s.phase == Phase::Replacing
            && s.todo[0] is Write) ==> after_reply(s, StoreReply::Failed).phase
            == Phase::ListingBack,
        s.phase == Phase::Replacing && s.todo[0] is Delete ==> after_reply(s, StoreReply::Failed)
            == after_reply(s, StoreReply::Done),
{
}

/// Files are being brought back, or were.
pub open spec fn given_up(s: ConsolidateV) -> bool {
    s.phase == Phase::ListingBack || s.phase == Phase::Restoring || s.phase == Phase::IndexingBack
        || s.phase == (Phase::Over { replaced: false })
}

/// Once a consolidation has been given up, it never counts as done.
pub proof fn lemma_given_up_stays(s: ConsolidateV, r: StoreReply)
    requires
        given_up(s),
    ensures
        given_up(after_reply(s, r)),
        count_after(after_reply(s, r)) == 0,
{
}

/// How many phases are left.
pub open spec fn phases_left(phase: Phase) -> nat {
    match phase {
        Phase::Listing => 6,
        Phase::Replacing => 5,
        Phase::Indexing => 4,
        Phase::ListingBack => 3,
        Phase::Restoring => 2,
        Phase::IndexingBack => 1,
        Phase::Over { .. } => 0,
    }
}

/// A consolidation comes to an end, whatever is replied: each reply leaves fewer phases, or the same
/// phase with one step fewer.
pub proof fn lemma_consolidation_ends(s: ConsolidateV, r: StoreReply)
    requires
        s.valid(),
        asked(s) is Some,
    ensures
        after_reply(s, r).valid(),
        phases_left(after_reply(s, r).phase) < phases_left(s.phase) || (after_reply(s, r).phase
            == s.phase && after_reply(s, r).todo.len() == s.todo.len() - 1),
{
}

/// The consolidation after so many things were done without a failure.
pub open spec fn worked(s: ConsolidateV, n: nat) -> ConsolidateV
    decreases n,
{
    if n == 0 {
        s
    } else {
        after_reply(worked(s, (n - 1) as nat), StoreReply::Done)
    }
}

proof fn lemma_worked(s: ConsolidateV, n: nat)
    requires
        s.valid(),
        s.phase == Phase::Replacing || s.phase == Phase::Restoring,
        n <= s.todo.len(),
    ensures
        worked(s, n) == under_way(s, s.phase, s.todo.skip(n as int)),
    decreases n,
{
    if n == 0 {
        assert(s.todo.skip(0) =~= s.todo);
    } else {
        lemma_worked(s, (n - 1) as nat);
        let before = worked(s, (n - 1) as nat);
        assert(before.todo.skip(1) =~= s.todo.skip(n as int));
    }
}

/// Where nothing fails, a consolidation takes all of its steps and is over, its count is that of the
/// new records, and the store holds each of them in a file of its own and nothing else.
pub proof fn lemma_consolidation_succeeds(
    records: Seq<CandidateV>,
    kept: Seq<FileV>,
    files: Map<Seq<char>, DocV>,
    entries: Vec<IndexEntry>,
)
    requires
        replaces(records),
        all_listed(files, entries_view(entries@)),
    ensures
        ({
            let s = after_reply(begun(records, kept), StoreReply::Listed(entries));
            let end = after_reply(worked(s, s.todo.len()), StoreReply::Done);
            let out = after_steps(files, s.todo);
            &&& asked(worked(s, s.todo.len())) == Some(ActionV::Index)
            &&& asked(end) is None
            &&& count_after(end) == records.len()
            &&& forall|i: int|
                0 <= i < records.len() ==> out.dom().contains(
                    record_file((#[trigger] records[i]).name),
                ) && out[record_file(records[i].name)] == candidate_doc(records[i])
            &&& forall|k: Seq<char>| #[trigger]
                out.dom().contains(k) ==> exists|i: int|
                    0 <= i < records.len() && record_file((#[trigger] records[i]).name) == k
        }),
{
    let s = after_reply(begun(records, kept), StoreReply::Listed(entries));
    assert(s.todo.len() > 0);
    lemma_worked(s, s.todo.len());
    lemma_replace_leaves_consolidated(files, entries_view(entries@), records);
}

/// Where a consolidation has failed, whatever it left behind, and bringing the files back goes well,
/// all kept files are back as they were and nothing else is there, and nothing counts as
/// consolidated.
pub proof fn lemma_failed_consolidation_is_undone(
    s: ConsolidateV,
    files: Map<Seq<char>, DocV>,
    entries: Vec<IndexEntry>,
)
    requires
        s.phase == Phase::ListingBack,
        all_listed(files, entries_view(entries@)),
        forall|i: int, j: int|
            0 <= i < j < s.kept.len() ==> (#[trigger] s.kept[i]).filename != (
            #[trigger] s.kept[j]).filename,
    ensures
        ({
            let back = after_reply(s, StoreReply::Listed(entries));
            let end = after_reply(worked(back, back.todo.len()), StoreReply::Done);
            let out = after_steps(files, back.todo);
            &&& asked(worked(back, back.todo.len())) == Some(ActionV::Index)
            &&& asked(end) is None
            &&& count_after(end) == 0
            &&& forall|i: int|
                0 <= i < s.kept.len() ==> out.dom().contains((#[trigger] s.kept[i]).filename)
                    && out[s.kept[i].filename] == kept_doc(s.kept[i])
            &&& forall|k: Seq<char>| #[trigger]
                out.dom().contains(k) ==> exists|i: int|
                    0 <= i < s.kept.len() && (#[trigger] s.kept[i]).filename == k
        }),
{
    let back = after_reply(s, StoreReply::Listed(entries));
    if back.todo.len() > 0 {
        lemma_worked(back, back.todo.len());
    }
    lemma_restore_brings_back(files, entries_view(entries@), s.kept);
}

} // verus!
