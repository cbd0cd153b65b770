//! Renaming a batch of files, all or none.
//!
//! Every file first takes a name no other has, then its new one, so names
//! can swap and pass along a chain; if any step fails, every file done so
//! far goes back. The batch says which file to rename next, and is told how
//! that went.

use crate::path::{file_name, file_name_of, with_file_name, with_file_name_of};
use crate::text::{chars, decimal, digits_of, join_chars, joined, runs, same, string};
use vstd::prelude::*;

verus! {

/// How often a file is tried under another parking name.
pub const ATTEMPTS: u32 = 100;

/// How one rename went, which is only made where nothing is at the new
/// name.
#[derive(Debug)]
pub enum Outcome {
    Done,
    /// Something is already at the new name.
    Exists(String),
    Failed(String),
}

#[verifier::ext_equal]
pub enum OutcomeView {
    Done,
    Exists(Seq<char>),
    Failed(Seq<char>),
}

impl View for Outcome {
    type V = OutcomeView;

    open spec fn view(&self) -> OutcomeView {
        match self {
            Outcome::Done => OutcomeView::Done,
            Outcome::Exists(e) => OutcomeView::Exists(e@),
            Outcome::Failed(e) => OutcomeView::Failed(e@),
        }
    }
}

/// What the batch does next.
#[derive(Debug, Clone, Copy, PartialEq, Eq, Structural)]
pub enum Phase {
    /// Each file takes a name no other has.
    Parking,
    /// Each file takes its new name.
    Landing,
    /// The files that have their new names go back to their parking names.
    Returning,
    /// The parked files go back to their old names.
    Unparking,
    Done,
    Failed,
}

/// Where a file of the batch is.
#[derive(Debug, Clone, Copy, PartialEq, Eq, Structural)]
pub enum Spot {
    Home,
    Parked,
    Landed,
}

/// What is to be done next.
#[derive(Debug)]
pub enum Act {
    Rename { from: String, to: String },
    Finished(Result<(), String>),
}

/// Renames under way.
pub struct Batch {
    renames: Vec<(String, String)>,
    process: u32,
    phase: Phase,
    at: usize,
    attempt: u32,
    parked: Vec<String>,
    spots: Vec<Spot>,
    failed: usize,
    error: String,
    stuck: Vec<String>,
    back: Vec<String>,
}

#[verifier::ext_equal]
pub struct BatchView {
    pub renames: Seq<(Seq<char>, Seq<char>)>,
    pub process: u32,
    pub phase: Phase,
    pub at: usize,
    pub attempt: u32,
    pub parked: Seq<Seq<char>>,
    pub spots: Seq<Spot>,
    pub failed: usize,
    pub error: Seq<char>,
    pub stuck: Seq<Seq<char>>,
    pub back: Seq<Seq<char>>,
}

/// Renames by their views.
pub open spec fn pairs(s: Seq<(String, String)>) -> Seq<(Seq<char>, Seq<char>)> {
    s.map_values(|p: (String, String)| (p.0@, p.1@))
}

/// Texts by their views.
pub open spec fn texts(s: Seq<String>) -> Seq<Seq<char>> {
    s.map_values(|t: String| t@)
}

impl View for Batch {
    type V = BatchView;

    closed spec fn view(&self) -> BatchView {
        BatchView {
            renames: pairs(self.renames@),
            process: self.process,
            phase: self.phase,
            at: self.at,
            attempt: self.attempt,
            parked: texts(self.parked@),
            spots: self.spots@,
            failed: self.failed,
            error: self.error@,
            stuck: texts(self.stuck@),
            back: texts(self.back@),
        }
    }
}

/// The renames that give a file another name.
pub open spec fn moving(s: Seq<(Seq<char>, Seq<char>)>) -> Seq<(Seq<char>, Seq<char>)>
    decreases s.len(),
{
    if s.len() == 0 {
        s
    } else if s.last().0 == s.last().1 {
        moving(s.drop_last())
    } else {
        moving(s.drop_last()).push(s.last())
    }
}

/// A hidden name for the file at `index` to be renamed through.
pub open spec fn parking_name(process: u32, index: nat, attempt: u32) -> Seq<char> {
    ".soundcheck-renaming-"@ + digits_of(process as nat) + "-"@ + digits_of(index) + "-"@
        + digits_of(attempt as nat)
}

/// What is said of a batch that stopped at `file`.
pub open spec fn failure_of(
    file: Seq<char>,
    error: Seq<char>,
    stuck: Seq<Seq<char>>,
) -> Seq<char> {
    let name = file_name_of(file);
    if stuck.len() == 0 {
        "Nothing renamed: "@ + name + " could not be ("@ + error
            + "), so every file is as it was."@
    } else {
        "Stopped at "@ + name + " ("@ + error
            + "), and these could not be put back, so they are here now: "@ + joined(
            stuck,
            ", "@,
        )
    }
}

/// A batch before its first step.
pub open spec fn batch_start(renames: Seq<(Seq<char>, Seq<char>)>, process: u32) -> BatchView {
    let moves = moving(renames);
    BatchView {
        renames: moves,
        process,
        phase: if moves.len() == 0 {
            Phase::Done
        } else {
            Phase::Parking
        },
        at: 0,
        attempt: 0,
        parked: Seq::empty(),
        spots: Seq::new(moves.len(), |i: int| Spot::Home),
        failed: 0,
        error: Seq::empty(),
        stuck: Seq::empty(),
        back: Seq::empty(),
    }
}

impl BatchView {
    /// The parking name that the file at hand is tried under.
    pub open spec fn parking(self) -> Seq<char> {
        with_file_name_of(
            self.renames[self.at as int].0,
            parking_name(self.process, self.at as nat, self.attempt),
        )
    }

    /// The rename to be made next.
    pub open spec fn rename(self) -> (Seq<char>, Seq<char>) {
        let i = self.at as int;
        match self.phase {
            Phase::Parking => (self.renames[i].0, self.parking()),
            Phase::Landing => (self.parked[i], self.renames[i].1),
            Phase::Returning => (self.renames[i].1, self.parked[i]),
            _ => (self.parked[i], self.renames[i].0),
        }
    }

    /// Whether no rename is left to be made.
    pub open spec fn over(self) -> bool {
        self.phase == Phase::Done || self.phase == Phase::Failed
    }

    /// What holds of a batch at every step.
    pub open spec fn wf(self) -> bool {
        let n = self.renames.len();
        let at = self.at;
        &&& self.spots.len() == n <= usize::MAX
        &&& self.parked.len() <= n
        &&& self.attempt < ATTEMPTS
        &&& match self.phase {
            Phase::Parking => {
                &&& at < n
                &&& self.parked.len() == at
                &&& self.stuck.len() == 0 && self.back.len() == 0
                &&& forall|j: int|
                    0 <= j < n ==> #[trigger] self.spots[j] == if j < at {
                        Spot::Parked
                    } else {
                        Spot::Home
                    }
            },
            Phase::Landing => {
                &&& at < n
                &&& self.parked.len() == n
                &&& self.stuck.len() == 0 && self.back.len() == 0
                &&& forall|j: int|
                    0 <= j < n ==> #[trigger] self.spots[j] == if j < at {
                        Spot::Landed
                    } else {
                        Spot::Parked
                    }
            },
            Phase::Returning => {
                &&& at < self.failed < n
                &&& self.parked.len() == n
                &&& self.back.len() == 0
                &&& forall|j: int|
                    0 <= j < n ==> {
                        &&& j < at ==> #[trigger] self.spots[j] == Spot::Parked || (self.spots[j]
                            == Spot::Landed && self.stuck.len() > 0)
                        &&& at <= j < self.failed ==> self.spots[j] == Spot::Landed
                        &&& j >= self.failed ==> self.spots[j] == Spot::Parked
                    }
            },
            Phase::Unparking => {
                &&& at < self.parked.len()
                &&& self.failed < n
                &&& forall|j: int|
                    0 <= j < n ==> {
                        &&& j < at ==> #[trigger] self.spots[j] == Spot::Home || self.back.len()
                            > 0
                        &&& at <= j < self.parked.len() ==> self.spots[j] == Spot::Parked || (
                        self.spots[j] == Spot::Landed && self.stuck.len() > 0)
                        &&& j >= self.parked.len() ==> self.spots[j] == Spot::Home
                    }
            },
            Phase::Done => {
                &&& self.parked.len() == n
                &&& forall|j: int| 0 <= j < n ==> #[trigger] self.spots[j] == Spot::Landed
            },
            Phase::Failed => {
                &&& self.failed < n
                &&& self.back.len() == 0 && self.stuck.len() == 0 ==> forall|j: int|
                    0 <= j < n ==> #[trigger] self.spots[j] == Spot::Home
                &&& forall|j: int|
                    self.parked.len() <= j < n ==> #[trigger] self.spots[j] == Spot::Home
            },
        }
    }

    /// On to putting the parked files back, where there are any.
    pub open spec fn unparking(self) -> BatchView {
        if self.parked.len() == 0 {
            BatchView { phase: Phase::Failed, at: 0, ..self }
        } else {
            BatchView { phase: Phase::Unparking, at: 0, ..self }
        }
    }

    /// On to the files that have their new names, where there are any.
    pub open spec fn returning(self) -> BatchView {
        if self.failed == 0 {
            self.unparking()
        } else {
            BatchView { phase: Phase::Returning, at: 0, ..self }
        }
    }

    /// On to the next file of the phase, or to the next phase.
    pub open spec fn onward(self) -> BatchView {
        let next = BatchView { at: (self.at + 1) as usize, ..self };
        match self.phase {
            Phase::Parking => if self.at + 1 < self.renames.len() {
                BatchView { attempt: 0, ..next }
            } else {
                BatchView { phase: Phase::Landing, at: 0, attempt: 0, ..self }
            },
            Phase::Landing => if self.at + 1 < self.renames.len() {
                next
            } else {
                BatchView { phase: Phase::Done, at: 0, ..self }
            },
            Phase::Returning => if self.at + 1 < self.failed {
                next
            } else {
                self.unparking()
            },
            _ => if self.at + 1 < self.parked.len() {
                next
            } else {
                BatchView { phase: Phase::Failed, at: 0, ..self }
            },
        }
    }

    /// The batch once the file at hand is at its new spot.
    pub open spec fn moved(self) -> BatchView {
        let i = self.at as int;
        match self.phase {
            Phase::Parking => BatchView {
                parked: self.parked.push(self.parking()),
                spots: self.spots.update(i, Spot::Parked),
                ..self
            },
            Phase::Landing => BatchView { spots: self.spots.update(i, Spot::Landed), ..self },
            Phase::Returning => BatchView { spots: self.spots.update(i, Spot::Parked), ..self },
            _ => BatchView { spots: self.spots.update(i, Spot::Home), ..self },
        }
    }

    /// The batch once its rename failed with `error`.
    pub open spec fn refused(self, error: Seq<char>, exists_already: bool) -> BatchView {
        let i = self.at as int;
        match self.phase {
            Phase::Parking => if exists_already && self.attempt + 1 < ATTEMPTS {
                BatchView { attempt: (self.attempt + 1) as u32, ..self }
            } else if exists_already {
                BatchView {
                    failed: self.at,
                    error: "no free name to rename through"@,
                    ..self
                }.unparking()
            } else {
                BatchView { failed: self.at, error, ..self }.unparking()
            },
            Phase::Landing => BatchView { failed: self.at, error, ..self }.returning(),
            Phase::Returning => BatchView {
                stuck: self.stuck.push(self.renames[i].1),
                ..self
            }.onward(),
            _ => BatchView { back: self.back.push(self.parked[i]), ..self }.onward(),
        }
    }

    /// The batch once it is told how its rename went.
    pub open spec fn after(self, outcome: OutcomeView) -> BatchView {
        match outcome {
            OutcomeView::Done => self.moved().onward(),
            OutcomeView::Exists(error) => self.refused(error, true),
            OutcomeView::Failed(error) => self.refused(error, false),
        }
    }

    /// How the batch ended.
    pub open spec fn result(self) -> Result<(), Seq<char>> {
        if self.phase == Phase::Done {
            Ok(())
        } else {
            Err(
                failure_of(
                    self.renames[self.failed as int].0,
                    self.error,
                    self.back + self.stuck,
                ),
            )
        }
    }

    /// Where the file at `j` is.
    pub open spec fn place(self, j: int) -> Seq<char> {
        match self.spots[j] {
            Spot::Home => self.renames[j].0,
            Spot::Parked => self.parked[j],
            Spot::Landed => self.renames[j].1,
        }
    }

    /// Where every file of the batch is.
    pub open spec fn places(self) -> Seq<Seq<char>> {
        Seq::new(self.renames.len(), |j: int| self.place(j))
    }
}

/// The names that files are renamed from.
pub open spec fn froms(s: Seq<(Seq<char>, Seq<char>)>) -> Seq<Seq<char>> {
    s.map_values(|p: (Seq<char>, Seq<char>)| p.0)
}

/// The names that files are renamed to.
pub open spec fn tos(s: Seq<(Seq<char>, Seq<char>)>) -> Seq<Seq<char>> {
    s.map_values(|p: (Seq<char>, Seq<char>)| p.1)
}

fn copy_moving(renames: &[(String, String)]) -> (r: Vec<(String, String)>)
    ensures
        pairs(r@) == moving(pairs(renames@)),
{
    let ghost all = pairs(renames@);
    let mut out: Vec<(String, String)> = Vec::new();
    let mut i: usize = 0;
    proof {
        assert(all.take(0) =~= Seq::<(Seq<char>, Seq<char>)>::empty());
        assert(pairs(out@) =~= moving(all.take(0)));
    }
    while i < renames.len()
        invariant
            i <= renames@.len(),
            all == pairs(renames@),
            pairs(out@) == moving(all.take(i as int)),
        decreases renames@.len() - i,
    {
        proof {
            assert(all[i as int] == (renames@[i as int].0@, renames@[i as int].1@));
            assert(all.take(i + 1).drop_last() =~= all.take(i as int));
        }
        if !same(renames[i].0.as_str(), renames[i].1.as_str()) {
            let ghost before = pairs(out@);
            let one = (renames[i].0.clone(), renames[i].1.clone());
            let ghost v = (one.0@, one.1@);
            out.push(one);
            assert(pairs(out@) =~= before.push(v));
        }
        i = i + 1;
    }
    assert(all.take(i as int) =~= all);
    out
}

fn number(n: u64) -> (r: String)
    ensures
        r@ == digits_of(n as nat),
{
    let v = decimal(n);
    string(v.as_slice())
}

fn parking_text(process: u32, index: usize, attempt: u32) -> (r: String)
    ensures
        r@ == parking_name(process, index as nat, attempt),
{
    let mut s = ".soundcheck-renaming-".to_owned();
    s.append(number(process as u64).as_str());
    s.append("-");
    s.append(number(index as u64).as_str());
    s.append("-");
    s.append(number(attempt as u64).as_str());
    s
}

fn all_chars(v: &Vec<String>, w: &Vec<String>) -> (r: Vec<Vec<char>>)
    ensures
        runs(r@) == texts(v@) + texts(w@),
{
    let mut out: Vec<Vec<char>> = Vec::new();
    let mut i: usize = 0;
    assert(runs(out@) =~= texts(v@).take(0));
    while i < v.len()
        invariant
            i <= v@.len(),
            runs(out@) == texts(v@).take(i as int),
        decreases v@.len() - i,
    {
        let ghost before = runs(out@);
        let c = chars(v[i].as_str());
        let ghost added = c@;
        out.push(c);
        i = i + 1;
        assert(runs(out@) =~= before.push(added));
        assert(texts(v@).take(i as int) =~= texts(v@).take(i - 1).push(texts(v@)[i - 1]));
    }
    assert(texts(v@).take(i as int) =~= texts(v@));
    let mut k: usize = 0;
    assert(texts(v@) + texts(w@).take(0) =~= texts(v@));
    while k < w.len()
        invariant
            k <= w@.len(),
            runs(out@) == texts(v@) + texts(w@).take(k as int),
        decreases w@.len() - k,
    {
        let ghost before = runs(out@);
        let c = chars(w[k].as_str());
        let ghost added = c@;
        out.push(c);
        k = k + 1;
        assert(runs(out@) =~= before.push(added));
        assert(texts(w@).take(k as int) =~= texts(w@).take(k - 1).push(texts(w@)[k - 1]));
        assert(runs(out@) =~= texts(v@) + texts(w@).take(k as int));
    }
    assert(texts(w@).take(k as int) =~= texts(w@));
    out
}

/// What is said of a batch that stopped at `file`, with the files of `back`
/// and `stuck` where they were not meant to be.
pub fn failure(file: &str, error: &str, back: &Vec<String>, stuck: &Vec<String>) -> (r: String)
    ensures
        r@ == failure_of(file@, error@, texts(back@) + texts(stuck@)),
{
    let name = file_name(file);
    let all = all_chars(back, stuck);
    assert(runs(all@).len() == all@.len());
    if all.len() == 0 {
        let mut s = "Nothing renamed: ".to_owned();
        s.append(name.as_str());
        s.append(" could not be (");
        s.append(error);
        s.append("), so every file is as it was.");
        s
    } else {
        let mut s = "Stopped at ".to_owned();
        s.append(name.as_str());
        s.append(" (");
        s.append(error);
        s.append("), and these could not be put back, so they are here now: ");
        let sep = chars(", ");
        let list = join_chars(&all, sep.as_slice());
        s.append(string(list.as_slice()).as_str());
        s
    }
}

/// Starts renaming each first name to its second, all or none, for a process
/// with this number.
pub fn execute(renames: &[(String, String)], process: u32) -> (r: Batch)
    ensures
        r@ == batch_start(pairs(renames@), process),
        r@.wf(),
{
    let moves = copy_moving(renames);
    let mut spots: Vec<Spot> = Vec::new();
    let mut i: usize = 0;
    while i < moves.len()
        invariant
            i <= moves@.len(),
            spots@ == Seq::new(i as nat, |j: int| Spot::Home),
        decreases moves@.len() - i,
    {
        spots.push(Spot::Home);
        i = i + 1;
        assert(spots@ =~= Seq::new(i as nat, |j: int| Spot::Home));
    }
    assert(pairs(moves@).len() == moves@.len());
    let phase = if moves.len() == 0 {
        Phase::Done
    } else {
        Phase::Parking
    };
    let r = Batch {
        renames: moves,
        process,
        phase,
        at: 0,
        attempt: 0,
        parked: Vec::new(),
        spots,
        failed: 0,
        error: String::new(),
        stuck: Vec::new(),
        back: Vec::new(),
    };
    assert(r@ =~~= batch_start(pairs(renames@), process));
    r
}

impl Batch {
    proof fn lemma_lens(&self)
        ensures
            self@.renames.len() == self.renames@.len(),
            self@.parked.len() == self.parked@.len(),
            forall|i: int|
                0 <= i < self.renames@.len() ==> #[trigger] self@.renames[i] == (
                    self.renames@[i].0@,
                    self.renames@[i].1@,
                ),
            forall|i: int|
                0 <= i < self.parked@.len() ==> #[trigger] self@.parked[i] == self.parked@[i]@,
    {
    }

    /// What is to be done next.
    pub fn act(&self) -> (r: Act)
        requires
            self@.wf(),
        ensures
            match r {
                Act::Rename { from, to } => !self@.over() && (from@, to@) == self@.rename(),
                Act::Finished(Ok(_)) => self@.phase == Phase::Done,
                Act::Finished(Err(why)) => self@.phase == Phase::Failed && self@.result() == Err::<
                    (),
                    Seq<char>,
                >(why@),
            },
    {
        proof {
            self.lemma_lens();
        }
        match self.phase {
            Phase::Parking => {
                let name = parking_text(self.process, self.at, self.attempt);
                Act::Rename {
                    from: self.renames[self.at].0.clone(),
                    to: with_file_name(self.renames[self.at].0.as_str(), name.as_str()),
                }
            },
            Phase::Landing => Act::Rename {
                from: self.parked[self.at].clone(),
                to: self.renames[self.at].1.clone(),
            },
            Phase::Returning => Act::Rename {
                from: self.renames[self.at].1.clone(),
                to: self.parked[self.at].clone(),
            },
            Phase::Unparking => Act::Rename {
                from: self.parked[self.at].clone(),
                to: self.renames[self.at].0.clone(),
            },
            Phase::Done => Act::Finished(Ok(())),
            Phase::Failed => Act::Finished(
                Err(
                    failure(
                        self.renames[self.failed].0.as_str(),
                        self.error.as_str(),
                        &self.back,
                        &self.stuck,
                    ),
                ),
            ),
        }
    }

    fn unpark(&mut self)
        ensures
            final(self)@ == old(self)@.unparking(),
    {
        proof {
            self.lemma_lens();
        }
        self.at = 0;
        if self.parked.len() == 0 {
            self.phase = Phase::Failed;
        } else {
            self.phase = Phase::Unparking;
        }
    }

    fn go_on(&mut self)
        requires
            old(self)@.at < usize::MAX,
        ensures
            final(self)@ == old(self)@.onward(),
    {
        proof {
            self.lemma_lens();
        }
        let next: usize = self.at + 1;
        match self.phase {
            Phase::Parking => {
                self.attempt = 0;
                if next < self.renames.len() {
                    self.at = next;
                } else {
                    self.phase = Phase::Landing;
                    self.at = 0;
                }
            },
            Phase::Landing => {
                if next < self.renames.len() {
                    self.at = next;
                } else {
                    self.phase = Phase::Done;
                    self.at = 0;
                }
            },
            Phase::Returning => {
                if next < self.failed {
                    self.at = next;
                } else {
                    self.unpark();
                }
            },
            _ => {
                if next < self.parked.len() {
                    self.at = next;
                } else {
                    self.phase = Phase::Failed;
                    self.at = 0;
                }
            },
        }
    }

    fn take_refusal(&mut self, error: String, exists_already: bool)
        requires
            old(self)@.wf(),
            !old(self)@.over(),
        ensures
            final(self)@ == old(self)@.refused(error@, exists_already),
    {
        proof {
            self.lemma_lens();
        }
        let i = self.at;
        match self.phase {
            Phase::Parking => {
                if exists_already && self.attempt + 1 < ATTEMPTS {
                    self.attempt = self.attempt + 1;
                } else if exists_already {
                    self.failed = i;
                    self.error = "no free name to rename through".to_owned();
                    self.unpark();
                } else {
                    self.failed = i;
                    self.error = error;
                    self.unpark();
                }
            },
            Phase::Landing => {
                self.failed = i;
                self.error = error;
                if i == 0 {
                    self.unpark();
                } else {
                    self.phase = Phase::Returning;
                    self.at = 0;
                }
            },
            Phase::Returning => {
                let ghost before = texts(self.stuck@);
                let name = self.renames[i].1.clone();
                let ghost n = name@;
                self.stuck.push(name);
                assert(texts(self.stuck@) =~= before.push(n));
                self.go_on();
            },
            _ => {
                let ghost before = texts(self.back@);
                let name = self.parked[i].clone();
                let ghost n = name@;
                self.back.push(name);
                assert(texts(self.back@) =~= before.push(n));
                self.go_on();
            },
        }
    }

    /// Takes in how the rename that was to be made went.
    pub fn took(&mut self, outcome: Outcome)
        requires
            old(self)@.wf(),
            !old(self)@.over(),
        ensures
            final(self)@ == old(self)@.after(outcome@),
            final(self)@.wf(),
    {
        proof {
            self.lemma_lens();
            lemma_after_stays(self@, outcome@);
        }
        match outcome {
            Outcome::Exists(error) => {
                self.take_refusal(error, true);
            },
            Outcome::Failed(error) => {
                self.take_refusal(error, false);
            },
            Outcome::Done => {
                let i = self.at;
                match self.phase {
                    Phase::Parking => {
                        let name = parking_text(self.process, i, self.attempt);
                        let path = with_file_name(self.renames[i].0.as_str(), name.as_str());
                        let ghost before = texts(self.parked@);
                        let ghost p = path@;
                        self.parked.push(path);
                        assert(texts(self.parked@) =~= before.push(p));
                        self.spots.set(i, Spot::Parked);
                    },
                    Phase::Landing => {
                        self.spots.set(i, Spot::Landed);
                    },
                    Phase::Returning => {
                        self.spots.set(i, Spot::Parked);
                    },
                    _ => {
                        self.spots.set(i, Spot::Home);
                    },
                }
                self.go_on();
            },
        }
    }
}

proof fn lemma_after_stays(v: BatchView, outcome: OutcomeView)
    requires
        v.wf(),
        !v.over(),
    ensures
        v.after(outcome).wf(),
        v.after(outcome).renames == v.renames,
        v.after(outcome).process == v.process,
{
}

/// What is on a disk: each file's content under its path.
pub type Disk = Map<Seq<char>, Seq<u8>>;

/// Whether `d` is `d0` with the file that was at each path of `from` now at
/// the path of `at` in the same place, and every other file as it was.
pub open spec fn rearranged(
    d0: Disk,
    d: Disk,
    from: Seq<Seq<char>>,
    at: Seq<Seq<char>>,
) -> bool {
    &&& from.len() == at.len()
    &&& forall|j: int|
        0 <= j < at.len() ==> d.contains_key(#[trigger] at[j]) && d[at[j]] == d0[from[j]]
    &&& forall|j: int, k: int| 0 <= j < k < at.len() ==> #[trigger] at[j] != #[trigger] at[k]
    &&& forall|p: Seq<char>|
        d0.contains_key(p) && !from.contains(p) ==> #[trigger] d.contains_key(p) && d[p] == d0[p]
            && !at.contains(p)
    &&& forall|p: Seq<char>|
        d.contains_key(p) && !at.contains(p) ==> #[trigger] d0.contains_key(p) && !from.contains(
            p,
        )
}

/// Whether a rename can have gone like this: one that was made found the
/// file there, and nothing at its new name.
pub open spec fn possible(
    d: Disk,
    rename: (Seq<char>, Seq<char>),
    outcome: OutcomeView,
) -> bool {
    outcome == OutcomeView::Done ==> d.contains_key(rename.0) && !d.contains_key(rename.1)
}

/// The disk after a rename that went like this.
pub open spec fn disk_after(
    d: Disk,
    rename: (Seq<char>, Seq<char>),
    outcome: OutcomeView,
) -> Disk {
    if outcome == OutcomeView::Done {
        d.remove(rename.0).insert(rename.1, d[rename.0])
    } else {
        d
    }
}

/// Whether `p` is where the `j`th file may be parked.
pub open spec fn parks_at(
    renames: Seq<(Seq<char>, Seq<char>)>,
    process: u32,
    j: int,
    p: Seq<char>,
) -> bool {
    exists|attempt: u32|
        p == with_file_name_of(
            renames[j].0,
            #[trigger] parking_name(process, j as nat, attempt),
        )
}

/// Whether a batch names no file twice whose name is one that the batch may
/// park a file under.
pub open spec fn parks_once(renames: Seq<(Seq<char>, Seq<char>)>, process: u32) -> bool {
    forall|i: int, k: int, j: int|
        0 <= i < k < renames.len() && 0 <= j < renames.len() && (#[trigger] renames[i]).0 == (
        #[trigger] renames[k]).0 ==> !#[trigger] parks_at(renames, process, j, renames[i].0)
}

/// Whether a batch gives and takes no name that it may park a file under.
pub open spec fn names_apart(renames: Seq<(Seq<char>, Seq<char>)>, process: u32) -> bool {
    forall|j: int, k: int, p: Seq<char>|
        0 <= j < renames.len() && 0 <= k < renames.len() && #[trigger] parks_at(
            renames,
            process,
            j,
            p,
        ) ==> (#[trigger] renames[k]).0 != p && renames[k].1 != p
}

/// Whether no file was parked under a name that the batch gives or takes.
pub open spec fn unmixed(v: BatchView) -> bool {
    forall|j: int, k: int|
        0 <= j < v.parked.len() && 0 <= k < v.renames.len() ==> #[trigger] v.parked[j] != (
        #[trigger] v.renames[k]).0 && v.parked[j] != v.renames[k].1
}

/// Where the files are first that were parked.
pub open spec fn homes(v: BatchView) -> Seq<Seq<char>> {
    froms(v.renames).take(v.parked.len() as int)
}

/// Where the files are that were parked.
pub open spec fn whereabouts(v: BatchView) -> Seq<Seq<char>> {
    v.places().take(v.parked.len() as int)
}

/// Whether every file that was parked was there, is where the batch has it,
/// and no other file has changed.
pub open spec fn kept(v: BatchView, d0: Disk, d: Disk) -> bool {
    &&& rearranged(d0, d, homes(v), whereabouts(v))
    &&& forall|j: int| 0 <= j < v.parked.len() ==> d0.contains_key((#[trigger] v.renames[j]).0)
}

/// Whether every file is kept, each one parked under a name of its own that
/// was free.
pub open spec fn keeps(v: BatchView, d0: Disk, d: Disk) -> bool {
    &&& kept(v, d0, d)
    &&& parked_well(v)
    &&& forall|j: int| 0 <= j < v.parked.len() ==> !d0.contains_key(#[trigger] v.parked[j])
}

/// Whether each parking name was one of the file's own.
pub open spec fn parked_well(v: BatchView) -> bool {
    forall|j: int|
        0 <= j < v.parked.len() ==> parks_at(v.renames, v.process, j, #[trigger] v.parked[j])
}

proof fn lemma_move(
    d0: Disk,
    d: Disk,
    from: Seq<Seq<char>>,
    at: Seq<Seq<char>>,
    j: int,
    q: Seq<char>,
)
    requires
        rearranged(d0, d, from, at),
        0 <= j < at.len(),
        !d.contains_key(q),
    ensures
        rearranged(d0, d.remove(at[j]).insert(q, d[at[j]]), from, at.update(j, q)),
{
    let e = d.remove(at[j]).insert(q, d[at[j]]);
    let b = at.update(j, q);
    assert forall|k: int| 0 <= k < b.len() implies e.contains_key(#[trigger] b[k]) && e[b[k]]
        == d0[from[k]] by {
        if k != j {
            assert(b[k] == at[k]);
            assert(at[k] != at[j]);
            assert(at[k] != q);
        }
    }
    assert forall|k: int, m: int| 0 <= k < m < b.len() implies #[trigger] b[k]
        != #[trigger] b[m] by {
        if k != j {
            assert(d.contains_key(at[k]));
        }
        if m != j {
            assert(d.contains_key(at[m]));
        }
    }
    assert forall|p: Seq<char>|
        d0.contains_key(p) && !from.contains(p) implies #[trigger] e.contains_key(p) && e[p]
        == d0[p] && !b.contains(p) by {
        assert(d.contains_key(p));
        assert(!at.contains(p));
        assert(at.contains(at[j]));
        if b.contains(p) {
            let k = choose|k: int| 0 <= k < b.len() && b[k] == p;
            if k != j {
                assert(at[k] == p);
            }
        }
    }
    assert forall|p: Seq<char>|
        e.contains_key(p) && !b.contains(p) implies #[trigger] d0.contains_key(p)
        && !from.contains(p) by {
        assert(b[j] == q);
        assert(p != q);
        assert(d.contains_key(p) && p != at[j]);
        if at.contains(p) {
            let k = choose|k: int| 0 <= k < at.len() && at[k] == p;
            assert(b[k] == p);
        }
    }
}

proof fn lemma_digits_plain(n: nat)
    ensures
        !digits_of(n).contains('/'),
    decreases n,
{
    if n >= 10 {
        lemma_digits_plain(n / 10);
        let s = digits_of(n);
        if s.contains('/') {
            let i = choose|i: int| 0 <= i < s.len() && s[i] == '/';
            if i < s.len() - 1 {
                assert(digits_of(n / 10)[i] == '/');
            }
        }
    }
}

proof fn lemma_no_slash(a: Seq<char>, b: Seq<char>)
    requires
        !a.contains('/'),
        !b.contains('/'),
    ensures
        !(a + b).contains('/'),
{
    let s = a + b;
    if s.contains('/') {
        let i = choose|i: int| 0 <= i < s.len() && s[i] == '/';
        if i < a.len() {
            assert(a[i] == '/');
        } else {
            assert(b[i - a.len()] == '/');
        }
    }
}

proof fn lemma_digits(n: nat)
    ensures
        digits_of(n).len() > 0,
        forall|i: int|
            0 <= i < digits_of(n).len() ==> '0' <= #[trigger] digits_of(n)[i] <= '9',
    decreases n,
{
    if n >= 10 {
        lemma_digits(n / 10);
        let s = digits_of(n);
        assert forall|i: int| 0 <= i < s.len() implies '0' <= #[trigger] s[i] <= '9' by {
            if i < s.len() - 1 {
                assert(digits_of(n / 10)[i] == s[i]);
            }
        }
    }
}

/// Numbers that are written alike are the same.
proof fn lemma_digits_differ(a: nat, b: nat)
    requires
        digits_of(a) == digits_of(b),
    ensures
        a == b,
    decreases a,
{
    let s = digits_of(a);
    lemma_digits(a / 10);
    lemma_digits(b / 10);
    if a >= 10 && b >= 10 {
        assert(s.drop_last() =~= digits_of(a / 10));
        assert(s.drop_last() =~= digits_of(b / 10));
        lemma_digits_differ(a / 10, b / 10);
        assert(s.last() == crate::text::digit_of(a % 10));
        assert(s.last() == crate::text::digit_of(b % 10));
    } else if a < 10 && b < 10 {
        assert(s[0] == crate::text::digit_of(a));
        assert(s[0] == crate::text::digit_of(b));
    } else {
        assert(s.len() == 1);
        if a >= 10 {
            assert(s.len() == digits_of(a / 10).len() + 1);
        } else {
            assert(s.len() == digits_of(b / 10).len() + 1);
        }
    }
}

/// A number with a dash behind it ends where the dash is.
proof fn lemma_up_to_a_dash(a: Seq<char>, b: Seq<char>, x: Seq<char>, y: Seq<char>)
    requires
        a + seq!['-'] + x == b + seq!['-'] + y,
        forall|i: int| 0 <= i < a.len() ==> '0' <= #[trigger] a[i] <= '9',
        forall|i: int| 0 <= i < b.len() ==> '0' <= #[trigger] b[i] <= '9',
    ensures
        a == b,
{
    let s = a + seq!['-'] + x;
    let t = b + seq!['-'] + y;
    assert(s[a.len() as int] == '-');
    assert(t[b.len() as int] == '-');
    if a.len() < b.len() {
        assert(t[a.len() as int] == b[a.len() as int]);
    } else if b.len() < a.len() {
        assert(s[b.len() as int] == a[b.len() as int]);
    }
    assert forall|i: int| 0 <= i < a.len() implies a[i] == b[i] by {
        assert(s[i] == a[i]);
        assert(t[i] == b[i]);
    }
    assert(a =~= b);
}

/// Files of different places in the batch are never parked under one name.
proof fn lemma_parking_names_differ(process: u32, i: nat, j: nat, a: u32, b: u32)
    requires
        parking_name(process, i, a) == parking_name(process, j, b),
    ensures
        i == j,
{
    reveal_strlit("-");
    assert("-"@ =~= seq!['-']);
    let head = ".soundcheck-renaming-"@ + digits_of(process as nat) + "-"@;
    let x = digits_of(i) + seq!['-'] + digits_of(a as nat);
    let y = digits_of(j) + seq!['-'] + digits_of(b as nat);
    assert(parking_name(process, i, a) =~= head + x);
    assert(parking_name(process, j, b) =~= head + y);
    assert((head + x).skip(head.len() as int) =~= x);
    assert((head + y).skip(head.len() as int) =~= y);
    lemma_digits(i);
    lemma_digits(j);
    lemma_up_to_a_dash(digits_of(i), digits_of(j), digits_of(a as nat), digits_of(b as nat));
    lemma_digits_differ(i, j);
}

proof fn lemma_parking_plain(process: u32, index: nat, attempt: u32)
    ensures
        !parking_name(process, index, attempt).contains('/'),
{
    reveal_strlit(".soundcheck-renaming-");
    reveal_strlit("-");
    lemma_digits_plain(process as nat);
    lemma_digits_plain(index);
    lemma_digits_plain(attempt as nat);
    let a = ".soundcheck-renaming-"@;
    assert(!a.contains('/'));
    assert(!"-"@.contains('/'));
    lemma_no_slash(a, digits_of(process as nat));
    lemma_no_slash(a + digits_of(process as nat), "-"@);
    lemma_no_slash(a + digits_of(process as nat) + "-"@, digits_of(index));
    lemma_no_slash(a + digits_of(process as nat) + "-"@ + digits_of(index), "-"@);
    lemma_no_slash(
        a + digits_of(process as nat) + "-"@ + digits_of(index) + "-"@,
        digits_of(attempt as nat),
    );
}

proof fn lemma_parks_apart(
    renames: Seq<(Seq<char>, Seq<char>)>,
    process: u32,
    i: int,
    j: int,
    p: Seq<char>,
)
    requires
        0 <= i,
        0 <= j,
        parks_at(renames, process, i, p),
        parks_at(renames, process, j, p),
    ensures
        i == j,
{
    let a = choose|a: u32|
        p == with_file_name_of(renames[i].0, #[trigger] parking_name(process, i as nat, a));
    let b = choose|b: u32|
        p == with_file_name_of(renames[j].0, #[trigger] parking_name(process, j as nat, b));
    lemma_parking_plain(process, i as nat, a);
    lemma_parking_plain(process, j as nat, b);
    crate::path::renaming_stays_in_the_folder(renames[i].0, parking_name(process, i as nat, a));
    crate::path::renaming_stays_in_the_folder(renames[j].0, parking_name(process, j as nat, b));
    lemma_parking_names_differ(process, i as nat, j as nat, a, b);
}

/// One more file, where it is.
proof fn lemma_one_more(
    d0: Disk,
    d: Disk,
    from: Seq<Seq<char>>,
    at: Seq<Seq<char>>,
    p: Seq<char>,
)
    requires
        rearranged(d0, d, from, at),
        d.contains_key(p),
        !at.contains(p),
    ensures
        d0.contains_key(p),
        rearranged(d0, d, from.push(p), at.push(p)),
{
    let f = from.push(p);
    let b = at.push(p);
    assert(d0.contains_key(p) && !from.contains(p));
    assert(d[p] == d0[p]);
    assert forall|j: int| 0 <= j < b.len() implies d.contains_key(#[trigger] b[j]) && d[b[j]]
        == d0[f[j]] by {
        if j < at.len() {
            assert(b[j] == at[j]);
        }
    }
    assert forall|j: int, k: int| 0 <= j < k < b.len() implies #[trigger] b[j]
        != #[trigger] b[k] by {
        assert(b[j] == at[j]);
        assert(at.contains(at[j]));
        if k < at.len() {
            assert(b[k] == at[k]);
        }
    }
    assert forall|q: Seq<char>| !f.contains(q) implies !#[trigger] from.contains(q) && q != p by {
        assert(f[from.len() as int] == p);
        if from.contains(q) {
            let k = choose|k: int| 0 <= k < from.len() && from[k] == q;
            assert(f[k] == q);
        }
    }
    assert forall|q: Seq<char>| !b.contains(q) implies !#[trigger] at.contains(q) && q != p by {
        assert(b[at.len() as int] == p);
        if at.contains(q) {
            let k = choose|k: int| 0 <= k < at.len() && at[k] == q;
            assert(b[k] == q);
        }
    }
    assert forall|q: Seq<char>|
        d0.contains_key(q) && !f.contains(q) implies #[trigger] d.contains_key(q) && d[q] == d0[q]
        && !b.contains(q) by {
        assert(!from.contains(q));
        if b.contains(q) {
            let k = choose|k: int| 0 <= k < b.len() && b[k] == q;
            if k < at.len() {
                assert(at[k] == q);
            }
        }
    }
    assert forall|q: Seq<char>|
        d.contains_key(q) && !b.contains(q) implies #[trigger] d0.contains_key(q) && !f.contains(
        q,
    ) by {
        assert(!at.contains(q));
        if f.contains(q) {
            let k = choose|k: int| 0 <= k < f.len() && f[k] == q;
            if k < from.len() {
                assert(from[k] == q);
            }
        }
    }
}

/// A rename that was not made moves nothing.
proof fn lemma_refused(v: BatchView, outcome: OutcomeView)
    requires
        v.wf(),
        !v.over(),
        outcome != OutcomeView::Done,
    ensures
        ({
            let next = v.after(outcome);
            &&& next.parked == v.parked
            &&& next.spots == v.spots
            &&& next.renames == v.renames
            &&& next.process == v.process
            &&& homes(next) == homes(v)
            &&& whereabouts(next) == whereabouts(v)
        }),
{
    let next = v.after(outcome);
    assert(next.places() =~= v.places());
}

/// A rename that was made, of the file that the batch meant, is kept.
proof fn lemma_kept_on(v: BatchView, d0: Disk, d: Disk)
    requires
        v.wf(),
        !v.over(),
        kept(v, d0, d),
        possible(d, v.rename(), OutcomeView::Done),
        v.phase == Phase::Parking ==> !v.parked.contains(v.renames[v.at as int].0),
        v.phase == Phase::Unparking ==> v.spots[v.at as int] == Spot::Parked,
    ensures
        kept(v.after(OutcomeView::Done), d0, disk_after(d, v.rename(), OutcomeView::Done)),
{
    lemma_after_stays(v, OutcomeView::Done);
    let next = v.after(OutcomeView::Done);
    let i = v.at as int;
    let (from, to) = v.rename();
    let f = homes(v);
    let at = whereabouts(v);
    if v.phase == Phase::Parking {
        if at.contains(from) {
            let k = choose|k: int| 0 <= k < at.len() && at[k] == from;
            assert(v.spots[k] == Spot::Parked);
            assert(v.parked[k] == from);
            assert(v.parked.contains(from));
        }
        lemma_one_more(d0, d, f, at, from);
        lemma_move(d0, d, f.push(from), at.push(from), i, to);
        assert(homes(next) =~= f.push(from));
        assert(whereabouts(next) =~= at.push(from).update(i, to)) by {
            assert forall|k: int| 0 <= k < at.len() implies #[trigger] whereabouts(next)[k]
                == at[k] by {
                assert(v.spots[k] == Spot::Parked);
                assert(next.spots[k] == Spot::Parked);
                assert(next.parked[k] == v.parked[k]);
            }
            assert(next.spots[i] == Spot::Parked);
            assert(next.parked[i] == to);
        }
        assert forall|k: int| 0 <= k < next.parked.len() implies d0.contains_key(
            (#[trigger] next.renames[k]).0,
        ) by {
            assert(next.renames[k] == v.renames[k]);
        }
    } else {
        assert(v.spots[i] == v.spots[i]);
        assert(at[i] == from);
        lemma_move(d0, d, f, at, i, to);
        assert(homes(next) =~= f);
        assert(whereabouts(next) =~= at.update(i, to));
    }
}

/// Each step of a batch keeps every file, however its rename goes, unless a
/// file was parked under a name that the batch gives or takes: each file of
/// it that was parked is where the batch has it, and no other file changes.
pub proof fn each_step_keeps_every_file(v: BatchView, d0: Disk, d: Disk, outcome: OutcomeView)
    requires
        v.wf(),
        !v.over(),
        unmixed(v.after(outcome)),
        keeps(v, d0, d),
        possible(d, v.rename(), outcome),
    ensures
        v.after(outcome).wf(),
        keeps(v.after(outcome), d0, disk_after(d, v.rename(), outcome)),
{
    lemma_after_stays(v, outcome);
    let next = v.after(outcome);
    let i = v.at as int;
    lemma_parked_grows(v, outcome);
    if outcome == OutcomeView::Done {
        let (from, to) = v.rename();
        if v.phase == Phase::Parking {
            assert(next.parked[i] == to);
            if v.parked.contains(from) {
                let k = choose|k: int| 0 <= k < v.parked.len() && v.parked[k] == from;
                assert(next.parked[k] == from);
                assert(next.renames[i].0 == from);
            }
            if d0.contains_key(to) {
                if homes(v).contains(to) {
                    let k = choose|k: int| 0 <= k < homes(v).len() && homes(v)[k] == to;
                    assert(next.renames[k].0 == to);
                }
                assert(d.contains_key(to));
            }
            lemma_parks(v);
            assert(keeps(v, d0, d));
            assert forall|k: int| 0 <= k < next.parked.len() implies !d0.contains_key(
                #[trigger] next.parked[k],
            ) && parks_at(next.renames, next.process, k, next.parked[k]) by {
                if k < v.parked.len() {
                    assert(next.parked[k] == v.parked[k]);
                }
            }
        }
        if v.phase == Phase::Unparking && v.spots[i] != Spot::Parked {
            lemma_nothing_parked(v, d0, d);
            assert(false);
        }
        lemma_kept_on(v, d0, d);
    } else {
        lemma_refused(v, outcome);
    }
}

proof fn lemma_parked_grows(v: BatchView, outcome: OutcomeView)
    requires
        v.wf(),
        !v.over(),
        unmixed(v.after(outcome)),
    ensures
        unmixed(v),
{
    lemma_after_stays(v, outcome);
    let next = v.after(outcome);
    assert forall|j: int, k: int|
        0 <= j < v.parked.len() && 0 <= k < v.renames.len() implies #[trigger] v.parked[j] != (
    #[trigger] v.renames[k]).0 && v.parked[j] != v.renames[k].1 by {
        assert(next.parked[j] == v.parked[j]);
        assert(next.renames[k] == v.renames[k]);
    }
}

/// A file that is not parked leaves nothing under its parking name.
proof fn lemma_nothing_parked(v: BatchView, d0: Disk, d: Disk)
    requires
        v.wf(),
        v.phase == Phase::Unparking,
        v.spots[v.at as int] != Spot::Parked,
        unmixed(v),
        keeps(v, d0, d),
    ensures
        !d.contains_key(v.parked[v.at as int]),
{
    let i = v.at as int;
    let p = v.parked[i];
    let at = whereabouts(v);
    if d.contains_key(p) {
        assert(!d0.contains_key(p));
        assert(at.contains(p));
        let m = choose|m: int| 0 <= m < at.len() && at[m] == p;
        assert(v.place(m) == p);
        assert(v.renames[m].0 != p && v.renames[m].1 != p);
        assert(v.spots[m] == Spot::Parked);
        assert(parks_at(v.renames, v.process, m, v.parked[m]));
        assert(parks_at(v.renames, v.process, i, v.parked[i]));
        lemma_parks_apart(v.renames, v.process, m, i, p);
    }
}

proof fn lemma_parks(v: BatchView)
    ensures
        parks_at(v.renames, v.process, v.at as int, v.parking()),
{
    let j = v.at as int;
    let name = parking_name(v.process, j as nat, v.attempt);
    assert(v.parking() == with_file_name_of(v.renames[j].0, name));
}

/// Whether the `i`th file was taken from where the `j`th was parked.
spec fn crossed(v: BatchView, i: int, j: int) -> bool {
    0 <= j < i < v.parked.len() && v.renames[i].0 == v.parked[j]
}

/// Whether one of the files from the `a`th up to the `b`th goes to `p`.
spec fn goes_to(
    renames: Seq<(Seq<char>, Seq<char>)>,
    p: Seq<char>,
    a: int,
    b: int,
) -> bool {
    exists|q: int| a <= q < b && 0 <= q < renames.len() && (#[trigger] renames[q]).1 == p
}

/// Whether the `j`th file, whose parking name was taken from it, cannot be
/// found there when it is to go back.
spec fn lost(v: BatchView, d: Disk, j: int) -> bool {
    let p = v.parked[j];
    let at = v.at as int;
    let f = v.failed as int;
    match v.phase {
        Phase::Parking => !d.contains_key(p),
        Phase::Landing => if at <= j {
            d.contains_key(p) ==> goes_to(v.renames, p, 0, at)
        } else {
            goes_to(v.renames, p, 0, j) && (d.contains_key(p) ==> goes_to(v.renames, p, j + 1, at))
        },
        Phase::Returning => if f <= j {
            d.contains_key(p) ==> goes_to(v.renames, p, at, f)
        } else {
            &&& goes_to(v.renames, p, at, j) ==> d.contains_key(p) ==> goes_to(v.renames, p, j + 1, f)
            &&& !goes_to(v.renames, p, at, j) ==> goes_to(v.renames, p, j + 1, f)
            &&& d.contains_key(p) && at > j ==> goes_to(v.renames, p, at, f)
        },
        Phase::Unparking => at <= j && !d.contains_key(p),
        _ => false,
    }
}

/// Whether a file could not be put back, or none has to be.
spec fn settled(v: BatchView) -> bool {
    v.stuck.len() > 0 || v.back.len() > 0 || v.phase == Phase::Done
}

/// What holds of every batch at every step.
spec fn accounted(v: BatchView, d0: Disk, d: Disk) -> bool {
    &&& parked_well(v)
    &&& kept(v, d0, d) || v.stuck.len() > 0 || exists|i: int, j: int| #[trigger]
        crossed(v, i, j) && (settled(v) || lost(v, d, j))
}

/// One more file that may go to `p`.
proof fn lemma_goes_to(renames: Seq<(Seq<char>, Seq<char>)>, p: Seq<char>, a: int, b: int)
    requires
        0 <= a <= b,
    ensures
        b < renames.len() ==> goes_to(renames, p, a, b + 1) == (goes_to(renames, p, a, b)
            || renames[b].1 == p),
        a < b <= renames.len() ==> goes_to(renames, p, a, b) == (goes_to(renames, p, a + 1, b)
            || renames[a].1 == p),
        a == b ==> !goes_to(renames, p, a, b),
{
    if b < renames.len() {
        if goes_to(renames, p, a, b) {
            let q = choose|q: int|
                a <= q < b && 0 <= q < renames.len() && (#[trigger] renames[q]).1 == p;
            assert(renames[q].1 == p);
        }
        if renames[b].1 == p {
            assert(goes_to(renames, p, a, b + 1));
        }
    }
    if a < b <= renames.len() {
        if goes_to(renames, p, a + 1, b) {
            let q = choose|q: int|
                a + 1 <= q < b && 0 <= q < renames.len() && (#[trigger] renames[q]).1 == p;
            assert(renames[q].1 == p);
        }
        if renames[a].1 == p {
            assert(goes_to(renames, p, a, b));
        }
    }
}

proof fn lemma_lost_landing(v: BatchView, d: Disk, j: int)
    requires
        v.wf(),
        v.phase == Phase::Landing,
        parked_well(v),
        0 <= j < v.parked.len(),
        lost(v, d, j),
        possible(d, v.rename(), OutcomeView::Done),
    ensures
        ({
            let next = v.after(OutcomeView::Done);
            settled(next) || lost(next, disk_after(d, v.rename(), OutcomeView::Done), j)
        }),
{
    let p = v.parked[j];
    let at = v.at as int;
    lemma_goes_to(v.renames, p, 0, at);
    lemma_goes_to(v.renames, p, 0, j);
    if at > j {
        lemma_goes_to(v.renames, p, j + 1, at);
    }
    assert(parks_at(v.renames, v.process, at, v.parked[at]));
    assert(parks_at(v.renames, v.process, j, v.parked[j]));
    if v.parked[at] == p {
        lemma_parks_apart(v.renames, v.process, at, j, p);
    }
}

proof fn lemma_lost_returning(v: BatchView, d: Disk, j: int)
    requires
        v.wf(),
        v.phase == Phase::Returning,
        parked_well(v),
        0 <= j < v.parked.len(),
        lost(v, d, j),
        possible(d, v.rename(), OutcomeView::Done),
    ensures
        ({
            let next = v.after(OutcomeView::Done);
            settled(next) || lost(next, disk_after(d, v.rename(), OutcomeView::Done), j)
        }),
{
    let p = v.parked[j];
    let at = v.at as int;
    let f = v.failed as int;
    lemma_goes_to(v.renames, p, at, f);
    lemma_goes_to(v.renames, p, f, f);
    if at <= j {
        lemma_goes_to(v.renames, p, at, j);
    }
    assert(parks_at(v.renames, v.process, at, v.parked[at]));
    assert(parks_at(v.renames, v.process, j, v.parked[j]));
    if v.parked[at] == p {
        lemma_parks_apart(v.renames, v.process, at, j, p);
    }
}

/// A file whose parking name was taken from it stays lost, until it cannot be
/// put back.
proof fn lemma_lost_on(v: BatchView, d: Disk, outcome: OutcomeView, i: int, j: int)
    requires
        v.wf(),
        !v.over(),
        parked_well(v),
        parks_once(v.renames, v.process),
        crossed(v, i, j),
        !settled(v),
        lost(v, d, j),
        possible(d, v.rename(), outcome),
    ensures
        ({
            let next = v.after(outcome);
            &&& crossed(next, i, j)
            &&& settled(next) || lost(next, disk_after(d, v.rename(), outcome), j)
        }),
{
    let p = v.parked[j];
    let at = v.at as int;
    let next = v.after(outcome);
    lemma_after_stays(v, outcome);
    assert(parks_at(v.renames, v.process, j, v.parked[j]));
    if outcome == OutcomeView::Done {
        match v.phase {
            Phase::Parking => {
                lemma_parks(v);
                if v.parking() == p {
                    lemma_parks_apart(v.renames, v.process, at, j, p);
                }
                lemma_goes_to(v.renames, p, 0, 0);
                assert(next.parked[j] == p);
                assert(next.parked[i] == v.parked[i]);
            },
            Phase::Landing => {
                lemma_lost_landing(v, d, j);
            },
            Phase::Returning => {
                lemma_lost_returning(v, d, j);
            },
            _ => {
                if v.renames[at].0 == p {
                    assert(v.renames[at].0 == v.renames[i].0);
                    assert(!parks_at(v.renames, v.process, j, v.renames[at].0));
                }
            },
        }
    } else {
        lemma_refused(v, outcome);
        if v.phase == Phase::Landing {
            lemma_goes_to(v.renames, p, 0, 0);
        }
    }
}

proof fn lemma_parked_well_on(v: BatchView, outcome: OutcomeView)
    requires
        v.wf(),
        !v.over(),
        parked_well(v),
    ensures
        parked_well(v.after(outcome)),
{
    let next = v.after(outcome);
    lemma_after_stays(v, outcome);
    lemma_parks(v);
    assert forall|k: int| 0 <= k < next.parked.len() implies parks_at(
        next.renames,
        next.process,
        k,
        #[trigger] next.parked[k],
    ) by {
        if k < v.parked.len() {
            assert(next.parked[k] == v.parked[k]);
        }
    }
}

/// Every step of every batch is accounted for.
proof fn lemma_accounted_on(v: BatchView, d0: Disk, d: Disk, outcome: OutcomeView)
    requires
        v.wf(),
        !v.over(),
        parks_once(v.renames, v.process),
        accounted(v, d0, d),
        possible(d, v.rename(), outcome),
    ensures
        accounted(v.after(outcome), d0, disk_after(d, v.rename(), outcome)),
{
    let next = v.after(outcome);
    let e = disk_after(d, v.rename(), outcome);
    let at = v.at as int;
    lemma_after_stays(v, outcome);
    lemma_parked_well_on(v, outcome);
    if v.stuck.len() > 0 {
        assert(next.stuck.len() > 0);
    } else if kept(v, d0, d) {
        if outcome == OutcomeView::Done {
            if v.phase == Phase::Parking && v.parked.contains(v.renames[at].0) {
                let j = choose|j: int| 0 <= j < v.parked.len() && v.parked[j] == v.renames[at].0;
                assert(parks_at(v.renames, v.process, j, v.parked[j]));
                assert(next.parked[j] == v.parked[j]);
                if v.parking() == v.parked[j] {
                    lemma_parks_apart(v.renames, v.process, at, j, v.parked[j]);
                }
                assert(crossed(next, at, j));
                lemma_goes_to(v.renames, v.parked[j], 0, 0);
                assert(lost(next, e, j));
            } else {
                lemma_kept_on(v, d0, d);
            }
        } else {
            lemma_refused(v, outcome);
        }
    } else {
        let (i, j) = choose|i: int, j: int| #[trigger]
            crossed(v, i, j) && (settled(v) || lost(v, d, j));
        if settled(v) {
            assert(next.back.len() > 0 || next.stuck.len() > 0);
            assert(next.parked[j] == v.parked[j]);
            assert(crossed(next, i, j));
        } else {
            lemma_lost_on(v, d, outcome, i, j);
        }
    }
}

/// A batch and the disk after a run of renames that went like `outcomes`.
pub open spec fn run(v: BatchView, d: Disk, outcomes: Seq<OutcomeView>) -> (BatchView, Disk)
    decreases outcomes.len(),
{
    if outcomes.len() == 0 {
        (v, d)
    } else {
        let (w, e) = run(v, d, outcomes.drop_last());
        (w.after(outcomes.last()), disk_after(e, w.rename(), outcomes.last()))
    }
}

/// Whether the run can have gone like that, with a rename left at each step.
pub open spec fn runs_so(v: BatchView, d: Disk, outcomes: Seq<OutcomeView>) -> bool
    decreases outcomes.len(),
{
    outcomes.len() > 0 ==> {
        let (w, e) = run(v, d, outcomes.drop_last());
        &&& runs_so(v, d, outcomes.drop_last())
        &&& !w.over()
        &&& possible(e, w.rename(), outcomes.last())
    }
}

proof fn lemma_run(
    renames: Seq<(Seq<char>, Seq<char>)>,
    process: u32,
    d0: Disk,
    outcomes: Seq<OutcomeView>,
)
    requires
        moving(renames).len() <= usize::MAX,
        runs_so(batch_start(renames, process), d0, outcomes),
    ensures
        ({
            let (v, d) = run(batch_start(renames, process), d0, outcomes);
            &&& v.wf()
            &&& v.renames == moving(renames)
            &&& v.process == process
            &&& parked_well(v)
            &&& unmixed(v) ==> keeps(v, d0, d)
            &&& parks_once(v.renames, process) ==> accounted(v, d0, d)
        }),
    decreases outcomes.len(),
{
    let start = batch_start(renames, process);
    if outcomes.len() == 0 {
        assert(homes(start) =~= Seq::<Seq<char>>::empty());
        assert(whereabouts(start) =~= Seq::<Seq<char>>::empty());
        assert(rearranged(d0, d0, homes(start), whereabouts(start)));
    } else {
        lemma_run(renames, process, d0, outcomes.drop_last());
        let (w, e) = run(start, d0, outcomes.drop_last());
        lemma_after_stays(w, outcomes.last());
        lemma_parked_well_on(w, outcomes.last());
        if unmixed(w.after(outcomes.last())) {
            lemma_parked_grows(w, outcomes.last());
            each_step_keeps_every_file(w, d0, e, outcomes.last());
        }
        if parks_once(w.renames, process) {
            lemma_accounted_on(w, d0, e, outcomes.last());
        }
    }
}

/// However the renames of a batch go: a batch that failed with nothing out of
/// its place has left the disk as it was, whatever files it names, unless it
/// names one twice that has a name it may park files under. A batch that
/// succeeded found every file and has given each its new name, unless one was
/// parked under a name that the batch itself gives or takes; no file was
/// replaced or lost.
pub proof fn a_batch_renames_every_file_or_none(
    renames: Seq<(Seq<char>, Seq<char>)>,
    process: u32,
    d0: Disk,
    outcomes: Seq<OutcomeView>,
)
    requires
        moving(renames).len() <= usize::MAX,
        runs_so(batch_start(renames, process), d0, outcomes),
    ensures
        ({
            let (v, d) = run(batch_start(renames, process), d0, outcomes);
            let from = froms(moving(renames));
            &&& names_apart(moving(renames), process) ==> unmixed(v)
            &&& unmixed(v) ==> keeps(v, d0, d)
            &&& v.phase == Phase::Done && unmixed(v) ==> rearranged(
                d0,
                d,
                from,
                tos(moving(renames)),
            ) && forall|j: int| 0 <= j < from.len() ==> d0.contains_key(#[trigger] from[j])
            &&& parks_once(moving(renames), process) && v.phase == Phase::Failed && v.back.len()
                == 0 && v.stuck.len() == 0 ==> d == d0
        }),
{
    lemma_run(renames, process, d0, outcomes);
    let (v, d) = run(batch_start(renames, process), d0, outcomes);
    let from = froms(v.renames);
    if names_apart(v.renames, process) {
        assert forall|j: int, k: int|
            0 <= j < v.parked.len() && 0 <= k < v.renames.len() implies #[trigger] v.parked[j] != (
        #[trigger] v.renames[k]).0 && v.parked[j] != v.renames[k].1 by {
            assert(parks_at(v.renames, process, j, v.parked[j]));
        }
    }
    if v.phase == Phase::Done && unmixed(v) {
        assert(homes(v) =~= from);
        assert(whereabouts(v) =~= tos(v.renames)) by {
            assert forall|j: int| 0 <= j < v.renames.len() implies #[trigger] whereabouts(v)[j]
                == tos(v.renames)[j] by {
                assert(v.spots[j] == Spot::Landed);
            }
        }
        assert forall|j: int| 0 <= j < from.len() implies d0.contains_key(#[trigger] from[j]) by {
            assert(d0.contains_key(v.renames[j].0));
        }
    }
    if parks_once(v.renames, process) && v.phase == Phase::Failed && v.back.len() == 0
        && v.stuck.len() == 0 {
        assert(kept(v, d0, d));
        let f = homes(v);
        assert(whereabouts(v) =~= f) by {
            assert forall|j: int| 0 <= j < v.parked.len() implies #[trigger] whereabouts(v)[j]
                == f[j] by {
                assert(v.spots[j] == Spot::Home);
            }
        }
        assert forall|p: Seq<char>| #[trigger] d.contains_key(p) == d0.contains_key(p) && (
        d.contains_key(p) ==> d[p] == d0[p]) by {
            if f.contains(p) {
                let k = choose|k: int| 0 <= k < f.len() && f[k] == p;
                assert(v.renames[k].0 == p);
                assert(whereabouts(v)[k] == p);
            }
        }
        assert(d =~= d0);
    }
}

/// The renames that take a batch back.
pub open spec fn swapped(s: Seq<(Seq<char>, Seq<char>)>) -> Seq<(Seq<char>, Seq<char>)> {
    s.map_values(|p: (Seq<char>, Seq<char>)| (p.1, p.0))
}

proof fn lemma_swapped(s: Seq<(Seq<char>, Seq<char>)>)
    ensures
        moving(swapped(s)) == swapped(moving(s)),
    decreases s.len(),
{
    if s.len() == 0 {
        assert(swapped(s) =~= s);
    } else {
        assert(swapped(s).drop_last() =~= swapped(s.drop_last()));
        lemma_swapped(s.drop_last());
        assert(moving(swapped(s)) =~= swapped(moving(s)));
    }
}

/// Files that were moved and then moved back are where they were.
proof fn lemma_there_and_back(
    d0: Disk,
    d1: Disk,
    d2: Disk,
    from: Seq<Seq<char>>,
    to: Seq<Seq<char>>,
)
    requires
        forall|j: int| 0 <= j < from.len() ==> d0.contains_key(#[trigger] from[j]),
        rearranged(d0, d1, from, to),
        rearranged(d1, d2, to, from),
    ensures
        d2 == d0,
{
    assert forall|p: Seq<char>| #[trigger] d2.contains_key(p) == d0.contains_key(p) && (
    d2.contains_key(p) ==> d2[p] == d0[p]) by {
        if from.contains(p) {
            let k = choose|k: int| 0 <= k < from.len() && from[k] == p;
            assert(d2.contains_key(from[k]) && d2[from[k]] == d1[to[k]]);
            assert(d1[to[k]] == d0[from[k]]);
        } else {
            if d0.contains_key(p) {
                assert(d1.contains_key(p) && !to.contains(p));
                assert(d2.contains_key(p));
            }
            if d2.contains_key(p) {
                assert(d1.contains_key(p) && !to.contains(p));
                assert(d0.contains_key(p));
            }
        }
    }
    assert(d2 =~= d0);
}

/// A batch that succeeded and then succeeded with each file's names the other
/// way round leaves the disk as it was, however names swap and pass along a
/// chain, unless a file was parked under a name that the batch itself gives
/// or takes.
pub proof fn undoing_a_batch_restores_the_disk(
    renames: Seq<(Seq<char>, Seq<char>)>,
    process: u32,
    d0: Disk,
    outcomes: Seq<OutcomeView>,
    later: u32,
    others: Seq<OutcomeView>,
)
    requires
        moving(renames).len() <= usize::MAX,
        runs_so(batch_start(renames, process), d0, outcomes),
        ({
            let (v, d1) = run(batch_start(renames, process), d0, outcomes);
            let (w, d2) = run(batch_start(swapped(renames), later), d1, others);
            &&& v.phase == Phase::Done && unmixed(v)
            &&& runs_so(batch_start(swapped(renames), later), d1, others)
            &&& w.phase == Phase::Done && unmixed(w)
        }),
    ensures
        ({
            let (v, d1) = run(batch_start(renames, process), d0, outcomes);
            run(batch_start(swapped(renames), later), d1, others).1 == d0
        }),
{
    let (v, d1) = run(batch_start(renames, process), d0, outcomes);
    let (w, d2) = run(batch_start(swapped(renames), later), d1, others);
    let moves = moving(renames);
    lemma_swapped(renames);
    a_batch_renames_every_file_or_none(renames, process, d0, outcomes);
    a_batch_renames_every_file_or_none(swapped(renames), later, d1, others);
    assert(froms(swapped(moves)) =~= tos(moves));
    assert(tos(swapped(moves)) =~= froms(moves));
    lemma_there_and_back(d0, d1, d2, froms(moves), tos(moves));
}

} // verus!
