//! What the bulk rename tools keep: the files listed and chosen, how they
//! are sorted, what a plan of theirs comes to, and the last batch done.

use crate::explorer::{goes_first, sooner};
use crate::order::{insert_by, sort_by};
use crate::path::{file_name, file_name_of};
use crate::pattern::{format_moment, formatted, Moment};
use crate::rename::{
    plan_views, problem_text, Candidate, Crop, DateRule, DateSource, ExtensionMode, Filters,
    FolderRule, MoveMode, MoveRule, NameMode, NumberKind, NumberRule, Place, Planned, PlannedView,
    RemoveRule, Rules, Side,
};
use crate::text::{decimal, digits_of, lower, lowered, same, string};
use crate::wav::text_view;
use vstd::prelude::*;

verus! {

/// Renames by their views: each file's path and its new one.
pub open spec fn batch_view(s: Seq<(String, String)>) -> Seq<(Seq<char>, Seq<char>)> {
    s.map_values(|p: (String, String)| (p.0@, p.1@))
}

/// What the tools want the window to do.
#[derive(Debug, PartialEq)]
pub enum Request {
    Rename(Vec<(String, String)>),
    /// Put the last batch back.
    Undo(Vec<(String, String)>),
    /// Show the window with every rule.
    AllRules,
    /// Close that window.
    Close,
}

#[derive(Debug, Clone, Copy, PartialEq, Eq, Structural)]
pub enum Sort {
    Name,
    Size,
    Modified,
    Recorded,
}

/// Whether `a` is earlier than `b`.
pub open spec fn earlier(a: Moment, b: Moment) -> bool {
    if a.year != b.year {
        a.year < b.year
    } else if a.month != b.month {
        a.month < b.month
    } else if a.day != b.day {
        a.day < b.day
    } else if a.hour != b.hour {
        a.hour < b.hour
    } else if a.minute != b.minute {
        a.minute < b.minute
    } else if a.second != b.second {
        a.second < b.second
    } else {
        a.nano < b.nano
    }
}

fn is_earlier(a: Moment, b: Moment) -> (r: bool)
    ensures
        r == earlier(a, b),
{
    if a.year != b.year {
        a.year < b.year
    } else if a.month != b.month {
        a.month < b.month
    } else if a.day != b.day {
        a.day < b.day
    } else if a.hour != b.hour {
        a.hour < b.hour
    } else if a.minute != b.minute {
        a.minute < b.minute
    } else if a.second != b.second {
        a.second < b.second
    } else {
        a.nano < b.nano
    }
}

/// Whether `a` goes before `b` by what is sorted by; what is not known goes
/// first.
pub open spec fn key_before(sort: Sort, a: Candidate, b: Candidate) -> bool {
    match sort {
        Sort::Name => sooner(lowered(a.path@), lowered(b.path@)),
        Sort::Size => a.size < b.size,
        Sort::Modified => match (a.modified_at, b.modified_at) {
            (None, Some(_)) => true,
            (Some(x), Some(y)) => x < y,
            _ => false,
        },
        Sort::Recorded => match (a.recorded, b.recorded) {
            (None, Some(_)) => true,
            (Some(x), Some(y)) => earlier(x, y),
            _ => false,
        },
    }
}

/// The order of files: by what is sorted by, and those alike in it by their
/// paths.
pub open spec fn file_before(sort: Sort, a: Candidate, b: Candidate) -> bool {
    if key_before(sort, a, b) {
        true
    } else if key_before(sort, b, a) {
        false
    } else {
        sooner(lowered(a.path@), lowered(b.path@))
    }
}

pub open spec fn row_order(sort: Sort) -> spec_fn((Candidate, bool), (Candidate, bool)) -> bool {
    |a: (Candidate, bool), b: (Candidate, bool)| file_before(sort, a.0, b.0)
}

/// Files with whether each is chosen, in order.
pub open spec fn sorted_rows(
    rows: Seq<(Candidate, bool)>,
    sort: Sort,
    descending: bool,
) -> Seq<(Candidate, bool)> {
    let up = sort_by(rows, row_order(sort));
    if descending {
        up.reverse()
    } else {
        up
    }
}

fn name_goes_first(a: &Candidate, b: &Candidate) -> (r: bool)
    ensures
        r == sooner(lowered(a.path@), lowered(b.path@)),
{
    let x = lower(a.path.as_str());
    let y = lower(b.path.as_str());
    goes_first(x.as_str(), y.as_str())
}

fn key_goes_first(sort: Sort, a: &Candidate, b: &Candidate) -> (r: bool)
    ensures
        r == key_before(sort, *a, *b),
{
    match sort {
        Sort::Name => name_goes_first(a, b),
        Sort::Size => a.size < b.size,
        Sort::Modified => match (a.modified_at, b.modified_at) {
            (None, Some(_)) => true,
            (Some(x), Some(y)) => x < y,
            _ => false,
        },
        Sort::Recorded => match (a.recorded, b.recorded) {
            (None, Some(_)) => true,
            (Some(x), Some(y)) => is_earlier(x, y),
            _ => false,
        },
    }
}

fn file_goes_first(sort: Sort, a: &Candidate, b: &Candidate) -> (r: bool)
    ensures
        r == file_before(sort, *a, *b),
{
    if key_goes_first(sort, a, b) {
        true
    } else if key_goes_first(sort, b, a) {
        false
    } else {
        name_goes_first(a, b)
    }
}

fn place_row(v: &mut Vec<(Candidate, bool)>, row: (Candidate, bool), sort: Sort)
    ensures
        final(v)@ == insert_by(old(v)@, row, row_order(sort)),
{
    let ghost all = v@;
    let ghost less = row_order(sort);
    let mut at: usize = v.len();
    assert(all.take(at as int) =~= all);
    assert(all.skip(at as int) =~= Seq::<(Candidate, bool)>::empty());
    while at > 0 && file_goes_first(sort, &row.0, &v[at - 1].0)
        invariant
            at <= v@.len(),
            all == v@,
            less == row_order(sort),
            insert_by(all, row, less) == insert_by(all.take(at as int), row, less) + all.skip(
                at as int,
            ),
        decreases at,
    {
        proof {
            let head = all.take(at as int);
            assert(head.last() == v@[at - 1]);
            assert(head.drop_last() =~= all.take(at - 1));
            assert(insert_by(all.take(at - 1), row, less).push(head.last()) + all.skip(at as int)
                =~= insert_by(all.take(at - 1), row, less) + all.skip(at - 1));
        }
        at = at - 1;
    }
    proof {
        if at > 0 {
            assert(all.take(at as int).last() == v@[at - 1]);
        }
    }
    v.insert(at, row);
    assert(v@ =~= all.take(at as int).push(row) + all.skip(at as int));
}

fn sort_rows(rows: &Vec<(Candidate, bool)>, sort: Sort, descending: bool) -> (r: Vec<
    (Candidate, bool),
>)
    ensures
        r@ == sorted_rows(rows@, sort, descending),
{
    let ghost all = rows@;
    let mut up: Vec<(Candidate, bool)> = Vec::new();
    let mut i: usize = 0;
    assert(all.take(0) =~= Seq::<(Candidate, bool)>::empty());
    assert(up@ =~= sort_by(all.take(0), row_order(sort)));
    while i < rows.len()
        invariant
            i <= rows@.len(),
            all == rows@,
            up@ == sort_by(all.take(i as int), row_order(sort)),
        decreases rows@.len() - i,
    {
        assert(all.take(i + 1).drop_last() =~= all.take(i as int));
        let row = (rows[i].0.clone(), rows[i].1);
        assert(row == rows@[i as int]);
        place_row(&mut up, row, sort);
        i = i + 1;
    }
    assert(all.take(i as int) =~= all);
    if !descending {
        return up;
    }
    let ghost sorted = up@;
    let mut down: Vec<(Candidate, bool)> = Vec::new();
    let mut k: usize = up.len();
    assert(down@ =~= sorted.reverse().take(0));
    while k > 0
        invariant
            k <= sorted.len(),
            up@ == sorted,
            down@ == sorted.reverse().take(sorted.len() - k),
        decreases k,
    {
        k = k - 1;
        let row = (up[k].0.clone(), up[k].1);
        assert(row == sorted[k as int]);
        down.push(row);
        assert(down@ =~= sorted.reverse().take(sorted.len() - k));
    }
    assert(sorted.reverse().take(sorted.len() as int) =~= sorted.reverse());
    down
}

/// The files that the tools list.
#[derive(Debug)]
pub struct Renamer {
    /// The folder listed, and the filters it was listed with.
    pub folder: Option<String>,
    pub listed_with: Option<Filters>,
    /// Each file, and whether it is chosen.
    pub rows: Vec<(Candidate, bool)>,
    pub sort: Sort,
    pub descending: bool,
    pub reading: bool,
    /// Bumped for each listing, so an older one arriving late is dropped.
    pub listing: u64,
    /// The last batch done, for Undo.
    pub last: Option<Vec<(String, String)>>,
    /// What was last said, and whether it is an error.
    pub message: Option<(String, bool)>,
}

#[verifier::ext_equal]
pub struct RenamerView {
    pub folder: Option<Seq<char>>,
    pub listed_with: Option<FiltersView>,
    pub rows: Seq<(Candidate, bool)>,
    pub sort: Sort,
    pub descending: bool,
    pub reading: bool,
    pub listing: u64,
    pub last: Option<Seq<(Seq<char>, Seq<char>)>>,
    pub message: Option<(Seq<char>, bool)>,
}

#[verifier::ext_equal]
pub struct FiltersView {
    pub mask: Seq<char>,
    pub match_case: bool,
    pub subfolders: bool,
    pub audio_only: bool,
}

impl View for Filters {
    type V = FiltersView;

    open spec fn view(&self) -> FiltersView {
        FiltersView {
            mask: self.mask@,
            match_case: self.match_case,
            subfolders: self.subfolders,
            audio_only: self.audio_only,
        }
    }
}

pub open spec fn filters_view(f: Option<Filters>) -> Option<FiltersView> {
    match f {
        Some(f) => Some(f@),
        None => None,
    }
}

pub open spec fn last_view(b: Option<Vec<(String, String)>>) -> Option<
    Seq<(Seq<char>, Seq<char>)>,
> {
    match b {
        Some(b) => Some(batch_view(b@)),
        None => None,
    }
}

pub open spec fn message_view(m: Option<(String, bool)>) -> Option<(Seq<char>, bool)> {
    match m {
        Some((t, e)) => Some((t@, e)),
        None => None,
    }
}

impl View for Renamer {
    type V = RenamerView;

    open spec fn view(&self) -> RenamerView {
        RenamerView {
            folder: text_view(self.folder),
            listed_with: filters_view(self.listed_with),
            rows: self.rows@,
            sort: self.sort,
            descending: self.descending,
            reading: self.reading,
            listing: self.listing,
            last: last_view(self.last),
            message: message_view(self.message),
        }
    }
}

/// Files, all of them chosen.
pub open spec fn all_chosen(files: Seq<Candidate>) -> Seq<(Candidate, bool)> {
    files.map_values(|f: Candidate| (f, true))
}

/// What is said of a batch that was done.
pub open spec fn done_text(count: nat, undone: bool) -> Seq<char> {
    if undone {
        digits_of(count) + " put back as they were"@
    } else {
        digits_of(count) + " "@ + if count == 1 {
            "file"@
        } else {
            "files"@
        } + " renamed"@
    }
}

impl RenamerView {
    /// Every file is chosen, or none.
    pub open spec fn all_chosen(self, chosen: bool) -> RenamerView {
        RenamerView {
            rows: self.rows.map_values(|r: (Candidate, bool)| (r.0, chosen)),
            ..self
        }
    }

    /// The files that were not are chosen, and no others.
    pub open spec fn inverted(self) -> RenamerView {
        RenamerView { rows: self.rows.map_values(|r: (Candidate, bool)| (r.0, !r.1)), ..self }
    }

    pub open spec fn empty() -> RenamerView {
        RenamerView {
            folder: None,
            listed_with: None,
            rows: Seq::empty(),
            sort: Sort::Name,
            descending: false,
            reading: false,
            listing: 0,
            last: None,
            message: None,
        }
    }

    /// A listing has been read; only the newest is taken in.
    pub open spec fn arrived(self, listing: u64, files: Seq<Candidate>) -> RenamerView {
        if listing == self.listing {
            RenamerView {
                rows: sorted_rows(all_chosen(files), self.sort, self.descending),
                reading: false,
                ..self
            }
        } else {
            self
        }
    }

    /// The folder is to be read again.
    pub open spec fn refreshed(self, filters: FiltersView) -> RenamerView {
        let next = RenamerView {
            listing: (self.listing + 1) as u64,
            listed_with: Some(filters),
            ..self
        };
        match self.folder {
            Some(_) => RenamerView { reading: true, ..next },
            None => RenamerView { rows: Seq::empty(), ..next },
        }
    }

    /// Whether the folder or the filters are other than what was listed.
    pub open spec fn behind(self, folder: Option<Seq<char>>, filters: FiltersView) -> bool {
        self.folder != folder || self.listed_with != Some(filters)
    }

    /// The tools after a batch went as `failed` says.
    pub open spec fn after_batch(
        self,
        batch: Seq<(Seq<char>, Seq<char>)>,
        undone: bool,
        failed: Option<Seq<char>>,
    ) -> RenamerView {
        match failed {
            Some(why) => RenamerView { message: Some((why, true)), ..self },
            None => RenamerView {
                last: if undone {
                    None
                } else {
                    Some(batch)
                },
                message: Some((done_text(batch.len(), undone), false)),
                ..self
            },
        }
    }

    /// The tools after a click on a column's title: sorted by it, and the
    /// other way at a second click.
    pub open spec fn clicked(self, sort: Sort) -> RenamerView {
        let descending = self.sort == sort && !self.descending;
        RenamerView { sort, descending, rows: sorted_rows(self.rows, sort, descending), ..self }
    }
}

impl Default for Renamer {
    fn default() -> (r: Self)
        ensures
            r@ == RenamerView::empty(),
    {
        let r = Renamer {
            folder: None,
            listed_with: None,
            rows: Vec::new(),
            sort: Sort::Name,
            descending: false,
            reading: false,
            listing: 0,
            last: None,
            message: None,
        };
        assert(r@ =~= RenamerView::empty());
        r
    }
}

fn copy_filters(f: &Filters) -> (r: Filters)
    ensures
        r@ == f@,
{
    Filters {
        mask: f.mask.clone(),
        match_case: f.match_case,
        subfolders: f.subfolders,
        audio_only: f.audio_only,
    }
}

fn same_filters(a: &Filters, b: &Filters) -> (r: bool)
    ensures
        r == (a@ == b@),
{
    same(a.mask.as_str(), b.mask.as_str()) && a.match_case == b.match_case && a.subfolders
        == b.subfolders && a.audio_only == b.audio_only
}

impl Renamer {
    /// Takes in a listing that has been read.
    pub fn arrived(&mut self, listing: u64, files: &Vec<Candidate>)
        ensures
            final(self)@ == old(self)@.arrived(listing, files@),
    {
        if listing != self.listing {
            return;
        }
        let ghost all = all_chosen(files@);
        let mut rows: Vec<(Candidate, bool)> = Vec::new();
        let mut i: usize = 0;
        while i < files.len()
            invariant
                i <= files@.len(),
                all == all_chosen(files@),
                rows@ == all.take(i as int),
            decreases files@.len() - i,
        {
            let row = (files[i].clone(), true);
            assert(row == all[i as int]);
            rows.push(row);
            i = i + 1;
            assert(rows@ =~= all.take(i as int));
        }
        assert(all.take(i as int) =~= all);
        self.rows = sort_rows(&rows, self.sort, self.descending);
        self.reading = false;
    }

    /// The folder is to be read again, as after a rename: under which
    /// number, where there is one.
    pub fn refresh(&mut self, filters: &Filters) -> (r: Option<u64>)
        requires
            old(self).listing < u64::MAX,
        ensures
            final(self)@ == old(self)@.refreshed(filters@),
            r == match final(self)@.folder {
                Some(_) => Some(final(self)@.listing),
                None => None,
            },
    {
        self.listing = self.listing + 1;
        self.listed_with = Some(copy_filters(filters));
        if self.folder.is_none() {
            self.rows = Vec::new();
            assert(self.rows@ =~= Seq::<(Candidate, bool)>::empty());
            None
        } else {
            self.reading = true;
            Some(self.listing)
        }
    }

    /// Follows the folder shown: it is read again whenever it or the filters
    /// change.
    pub fn follow(&mut self, folder: Option<&str>, filters: &Filters) -> (r: Option<u64>)
        requires
            old(self).listing < u64::MAX,
        ensures
            ({
                let now = match folder {
                    Some(f) => Some(f@),
                    None => None,
                };
                if old(self)@.behind(now, filters@) {
                    final(self)@ == (RenamerView { folder: now, ..old(self)@ }).refreshed(filters@)
                        && r == match now {
                        Some(_) => Some(final(self)@.listing),
                        None => None,
                    }
                } else {
                    final(self)@ == old(self)@ && r is None
                }
            }),
    {
        let same_folder = match (&self.folder, folder) {
            (Some(a), Some(b)) => same(a.as_str(), b),
            (None, None) => true,
            _ => false,
        };
        let listed = match &self.listed_with {
            Some(f) => same_filters(f, filters),
            None => false,
        };
        if same_folder && listed {
            return None;
        }
        self.folder = match folder {
            Some(f) => Some(f.to_owned()),
            None => None,
        };
        self.refresh(filters)
    }

    /// Says how the batch that the window was asked for went.
    pub fn finished(&mut self, batch: Vec<(String, String)>, undone: bool, failed: Option<String>)
        ensures
            final(self)@ == old(self)@.after_batch(batch_view(batch@), undone, text_view(failed)),
    {
        match failed {
            Some(why) => {
                self.message = Some((why, true));
            },
            None => {
                let count: usize = batch.len();
                assert(batch_view(batch@).len() == count);
                let d = decimal(count as u64);
                let mut text = string(d.as_slice());
                if undone {
                    text.append(" put back as they were");
                    self.last = None;
                } else {
                    text.append(" ");
                    if count == 1 {
                        text.append("file");
                    } else {
                        text.append("files");
                    }
                    text.append(" renamed");
                    self.last = Some(batch);
                }
                self.message = Some((text, false));
            },
        }
    }

    /// A click on a column's title.
    pub fn click(&mut self, sort: Sort)
        ensures
            final(self)@ == old(self)@.clicked(sort),
    {
        self.descending = self.sort == sort && !self.descending;
        self.sort = sort;
        self.rows = sort_rows(&self.rows, self.sort, self.descending);
    }

    /// What the folder is called.
    pub fn folder_name(&self) -> (r: String)
        ensures
            r@ == match self@.folder {
                Some(f) => if file_name_of(f).len() == 0 {
                    "no folder"@
                } else {
                    file_name_of(f)
                },
                None => "no folder"@,
            },
    {
        match &self.folder {
            Some(f) => {
                let name = file_name(f.as_str());
                if name.as_str().is_empty() {
                    "no folder".to_owned()
                } else {
                    name
                }
            },
            None => "no folder".to_owned(),
        }
    }
}

/// A listing that another has been asked for since is dropped.
pub proof fn an_older_listing_is_dropped(
    v: RenamerView,
    filters: FiltersView,
    files: Seq<Candidate>,
)
    requires
        v.listing < u64::MAX,
    ensures
        v.refreshed(filters).arrived(v.listing, files) == v.refreshed(filters),
{
}

/// A batch put back is a batch with its paths the other way round.
pub open spec fn reversed_of(b: Seq<(Seq<char>, Seq<char>)>) -> Seq<(Seq<char>, Seq<char>)> {
    b.map_values(|p: (Seq<char>, Seq<char>)| (p.1, p.0))
}

/// The batch that puts `batch` back.
pub fn reversed(batch: &Vec<(String, String)>) -> (r: Vec<(String, String)>)
    ensures
        batch_view(r@) == reversed_of(batch_view(batch@)),
{
    let ghost all = reversed_of(batch_view(batch@));
    let mut out: Vec<(String, String)> = Vec::new();
    let mut i: usize = 0;
    while i < batch.len()
        invariant
            i <= batch@.len(),
            all == reversed_of(batch_view(batch@)),
            batch_view(out@) == all.take(i as int),
        decreases batch@.len() - i,
    {
        let ghost before = batch_view(out@);
        let p = (batch[i].1.clone(), batch[i].0.clone());
        assert(batch_view(batch@)[i as int] == (batch@[i as int].0@, batch@[i as int].1@));
        assert((p.0@, p.1@) == all[i as int]);
        out.push(p);
        assert(batch_view(out@) =~= before.push(all[i as int]));
        i = i + 1;
        assert(batch_view(out@) =~= all.take(i as int));
    }
    assert(all.take(i as int) =~= all);
    out
}

/// Putting a batch back twice is doing it again.
pub proof fn putting_back_twice_does_it_again(b: Seq<(Seq<char>, Seq<char>)>)
    ensures
        reversed_of(reversed_of(b)) == b,
{
    assert(reversed_of(reversed_of(b)) =~= b);
}

/// Counts of the chosen files: all, those that change, and those that
/// cannot.
pub open spec fn counts_of(plan: Seq<Option<PlannedView>>) -> (nat, nat, nat)
    decreases plan.len(),
{
    if plan.len() == 0 {
        (0, 0, 0)
    } else {
        let (a, b, c) = counts_of(plan.drop_last());
        match plan.last() {
            Some(p) => (
                a + 1,
                b + if p.moves() {
                    1nat
                } else {
                    0
                },
                c + if p.problem is Some {
                    1nat
                } else {
                    0
                },
            ),
            None => (a, b, c),
        }
    }
}

/// Counts of the chosen files: all, those that change, and those that
/// cannot.
pub fn counts(plan: &Vec<Option<Planned>>) -> (r: (usize, usize, usize))
    ensures
        (r.0 as nat, r.1 as nat, r.2 as nat) == counts_of(plan_views(plan@)),
{
    let ghost all = plan_views(plan@);
    let mut chosen: usize = 0;
    let mut changing: usize = 0;
    let mut problems: usize = 0;
    let mut i: usize = 0;
    assert(all.take(0) =~= Seq::<Option<PlannedView>>::empty());
    while i < plan.len()
        invariant
            i <= plan@.len(),
            all == plan_views(plan@),
            chosen <= i,
            changing <= i,
            problems <= i,
            (chosen as nat, changing as nat, problems as nat) == counts_of(all.take(i as int)),
        decreases plan@.len() - i,
    {
        proof {
            assert(all.take(i + 1).drop_last() =~= all.take(i as int));
            assert(all.take(i + 1).last() == all[i as int]);
        }
        match &plan[i] {
            Some(p) => {
                chosen = chosen + 1;
                if p.changes() {
                    changing = changing + 1;
                }
                if p.problem.is_some() {
                    problems = problems + 1;
                }
            },
            None => {},
        }
        i = i + 1;
    }
    assert(all.take(i as int) =~= all);
    (chosen, changing, problems)
}

/// The first chosen file with something in the way, and what is said of it.
pub open spec fn first_problem(plan: Seq<Option<PlannedView>>) -> Option<Seq<char>>
    decreases plan.len(),
{
    if plan.len() == 0 {
        None
    } else {
        match plan[0] {
            Some(p) => match p.problem {
                Some(why) => Some(file_name_of(p.from) + ": "@ + problem_text(why)),
                None => first_problem(plan.skip(1)),
            },
            None => first_problem(plan.skip(1)),
        }
    }
}

/// The renames of the files that change.
pub open spec fn moves_of(plan: Seq<Option<PlannedView>>) -> Seq<(Seq<char>, Seq<char>)>
    decreases plan.len(),
{
    if plan.len() == 0 {
        Seq::empty()
    } else {
        match plan.last() {
            Some(p) => if p.moves() {
                moves_of(plan.drop_last()).push((p.from, p.to))
            } else {
                moves_of(plan.drop_last())
            },
            None => moves_of(plan.drop_last()),
        }
    }
}

/// The batch that a plan comes to, or why there is none.
pub open spec fn batch_of(plan: Seq<Option<PlannedView>>) -> Result<
    Seq<(Seq<char>, Seq<char>)>,
    Seq<char>,
> {
    match first_problem(plan) {
        Some(why) => Err(why),
        None => Ok(moves_of(plan)),
    }
}

/// The batch that a plan comes to, or why there is none.
pub fn batch(plan: &Vec<Option<Planned>>) -> (r: Result<Vec<(String, String)>, String>)
    ensures
        match (r, batch_of(plan_views(plan@))) {
            (Ok(b), Ok(moves)) => batch_view(b@) == moves,
            (Err(t), Err(why)) => t@ == why,
            _ => false,
        },
{
    let ghost all = plan_views(plan@);
    let mut out: Vec<(String, String)> = Vec::new();
    let mut i: usize = 0;
    proof {
        assert(all.take(0) =~= Seq::<Option<PlannedView>>::empty());
        assert(all.skip(0) =~= all);
        assert(batch_view(out@) =~= moves_of(all.take(0)));
    }
    while i < plan.len()
        invariant
            i <= plan@.len(),
            all == plan_views(plan@),
            first_problem(all) == first_problem(all.skip(i as int)),
            batch_view(out@) == moves_of(all.take(i as int)),
        decreases plan@.len() - i,
    {
        proof {
            assert(all.take(i + 1).drop_last() =~= all.take(i as int));
            assert(all.take(i + 1).last() == all[i as int]);
            assert(all.skip(i as int)[0] == all[i as int]);
            assert(all.skip(i as int).skip(1) =~= all.skip(i + 1));
        }
        match &plan[i] {
            Some(p) => {
                match &p.problem {
                    Some(why) => {
                        let mut text = file_name(p.from.as_str());
                        let why = why.message();
                        text.append(": ");
                        text.append(why.as_str());
                        return Err(text);
                    },
                    None => {},
                }
                if p.changes() {
                    let ghost before = batch_view(out@);
                    let pair = (p.from.clone(), p.to.clone());
                    let ghost v = (pair.0@, pair.1@);
                    out.push(pair);
                    assert(batch_view(out@) =~= before.push(v));
                }
            },
            None => {},
        }
        i = i + 1;
    }
    assert(all.take(i as int) =~= all);
    Ok(out)
}

impl Renamer {
    /// What to ask the window for, where there is anything to do; what
    /// stands in the way is said instead.
    pub fn go(&mut self, plan: &Vec<Option<Planned>>) -> (r: Option<Request>)
        ensures
            match batch_of(plan_views(plan@)) {
                Ok(moves) => final(self)@ == old(self)@ && if moves.len() == 0 {
                    r is None
                } else {
                    r matches Some(Request::Rename(b)) && batch_view(b@) == moves
                },
                Err(why) => r is None && final(self)@ == (RenamerView {
                    message: Some((why, true)),
                    ..old(self)@
                }),
            },
    {
        match batch(plan) {
            Ok(b) => {
                assert(batch_view(b@).len() == b@.len());
                if b.len() == 0 {
                    None
                } else {
                    Some(Request::Rename(b))
                }
            },
            Err(why) => {
                self.message = Some((why, true));
                None
            },
        }
    }

    /// What to ask the window for to put the last batch back.
    pub fn undo(&self) -> (r: Option<Request>)
        ensures
            match self@.last {
                Some(b) => r matches Some(Request::Undo(u)) && batch_view(u@) == reversed_of(b),
                None => r is None,
            },
    {
        match &self.last {
            Some(b) => Some(Request::Undo(reversed(b))),
            None => None,
        }
    }

    /// Chooses every file, or none.
    pub fn choose_all(&mut self, chosen: bool)
        ensures
            final(self)@ == old(self)@.all_chosen(chosen),
    {
        self.rechoose(Some(chosen));
        assert(self@.rows =~= old(self)@.all_chosen(chosen).rows);
    }

    /// Chooses the files that are not, and no others.
    pub fn invert(&mut self)
        ensures
            final(self)@ == old(self)@.inverted(),
    {
        self.rechoose(None);
        assert(self@.rows =~= old(self)@.inverted().rows);
    }

    fn rechoose(&mut self, chosen: Option<bool>)
        ensures
            final(self)@ == (RenamerView {
                rows: old(self)@.rows.map_values(
                    |r: (Candidate, bool)|
                        (
                            r.0,
                            match chosen {
                                Some(c) => c,
                                None => !r.1,
                            },
                        ),
                ),
                ..old(self)@
            }),
    {
        let ghost f = |r: (Candidate, bool)|
            (
                r.0,
                match chosen {
                    Some(c) => c,
                    None => !r.1,
                },
            );
        let ghost all = self.rows@.map_values(f);
        let mut rows: Vec<(Candidate, bool)> = Vec::new();
        let mut i: usize = 0;
        while i < self.rows.len()
            invariant
                i <= self.rows@.len(),
                self@ == old(self)@,
                f == (|r: (Candidate, bool)|
                    (
                        r.0,
                        match chosen {
                            Some(c) => c,
                            None => !r.1,
                        },
                    )),
                all == self.rows@.map_values(f),
                rows@ == all.take(i as int),
            decreases self.rows@.len() - i,
        {
            let now = match chosen {
                Some(c) => c,
                None => !self.rows[i].1,
            };
            let row = (self.rows[i].0.clone(), now);
            assert(row == all[i as int]);
            rows.push(row);
            i = i + 1;
            assert(rows@ =~= all.take(i as int));
        }
        assert(all.take(i as int) =~= all);
        self.rows = rows;
    }
}

/// A batch goes ahead only where nothing stands in the way of any file, and
/// then holds as many renames as files change.
pub proof fn a_batch_is_every_change_or_none(plan: Seq<Option<PlannedView>>)
    ensures
        batch_of(plan) is Ok <==> counts_of(plan).2 == 0,
        batch_of(plan) matches Ok(moves) ==> moves.len() == counts_of(plan).1,
{
    lemma_first_problem(plan, 0);
    lemma_counts(plan);
    assert(plan.skip(0) =~= plan);
    assert(plan.take(0) =~= Seq::<Option<PlannedView>>::empty());
}

proof fn lemma_counts(plan: Seq<Option<PlannedView>>)
    ensures
        moves_of(plan).len() == counts_of(plan).1,
    decreases plan.len(),
{
    if plan.len() > 0 {
        lemma_counts(plan.drop_last());
    }
}

/// The first of the files from `i` on that cannot, found from the front and
/// counted from the back.
proof fn lemma_first_problem(plan: Seq<Option<PlannedView>>, i: int)
    requires
        0 <= i <= plan.len(),
    ensures
        first_problem(plan.skip(i)) is None <==> counts_of(plan).2 == counts_of(plan.take(i)).2,
        counts_of(plan.take(i)).2 <= counts_of(plan).2,
    decreases plan.len() - i,
{
    if i < plan.len() {
        lemma_first_problem(plan, i + 1);
        assert(plan.skip(i)[0] == plan[i]);
        assert(plan.skip(i).skip(1) =~= plan.skip(i + 1));
        assert(plan.take(i + 1).drop_last() =~= plan.take(i));
        assert(plan.take(i + 1).last() == plan[i]);
    } else {
        assert(plan.take(i) =~= plan);
    }
}

/// How many change, and how many cannot, as it is shown.
pub open spec fn status_of(chosen: nat, changing: nat, problems: nat) -> Seq<char> {
    let first = digits_of(changing) + " of "@ + digits_of(chosen) + " change"@;
    if problems > 0 {
        first + ", "@ + digits_of(problems) + " cannot"@
    } else {
        first
    }
}

/// How many change, and how many cannot, as it is shown.
pub fn status(chosen: usize, changing: usize, problems: usize) -> (r: String)
    ensures
        r@ == status_of(chosen as nat, changing as nat, problems as nat),
{
    let a = string(decimal(changing as u64).as_slice());
    let b = string(decimal(chosen as u64).as_slice());
    let mut text = a;
    text.append(" of ");
    text.append(b.as_str());
    text.append(" change");
    if problems > 0 {
        let c = string(decimal(problems as u64).as_slice());
        text.append(", ");
        text.append(c.as_str());
        text.append(" cannot");
    }
    text
}

/// What a way of moving characters is called.
pub fn move_label(mode: MoveMode) -> (r: &'static str)
    ensures
        r@ == match mode {
            MoveMode::Off => "Off"@,
            MoveMode::CopyFirst => "Copy the first"@,
            MoveMode::CopyLast => "Copy the last"@,
            MoveMode::MoveFirst => "Move the first"@,
            MoveMode::MoveLast => "Move the last"@,
        },
{
    match mode {
        MoveMode::Off => "Off",
        MoveMode::CopyFirst => "Copy the first",
        MoveMode::CopyLast => "Copy the last",
        MoveMode::MoveFirst => "Move the first",
        MoveMode::MoveLast => "Move the last",
    }
}

/// The date that formats are shown by.
pub open spec fn sample_date() -> Moment {
    Moment { year: 2026, month: 4, day: 3, hour: 7, minute: 14, second: 5, nano: 0 }
}

/// A date format as a sample date looks in it, or the format itself where it
/// does not work.
pub fn date_example(format: &str) -> (r: String)
    ensures
        r@ == match formatted(sample_date(), format@) {
            Some(shown) => shown,
            None => format@,
        },
{
    let sample = Moment { year: 2026, month: 4, day: 3, hour: 7, minute: 14, second: 5, nano: 0 };
    match format_moment(sample, format) {
        Some(shown) => shown,
        None => format.to_owned(),
    }
}

#[verifier::opaque]
pub open spec fn one_if(b: bool) -> nat {
    if b {
        1
    } else {
        0
    }
}

/// How many of the rules that change what a name holds are set past what the
/// short form shows.
#[verifier::opaque]
pub open spec fn hidden_changes(r: Rules) -> nat {
    one_if(!r.regex.is_plain()) + one_if(!r.name.is_plain()) + one_if(r.replace.match_case)
        + one_if(r.case.except@.len() > 0)
}

/// How many of the rules that take out, move and add are.
#[verifier::opaque]
pub open spec fn hidden_moves(r: Rules) -> nat {
    one_if(!r.remove.is_plain()) + one_if(!r.moves.is_plain()) + one_if(
        r.add.insert@.len() > 0 || r.add.word_space,
    ) + one_if(!r.date.is_plain())
}

/// How many of the rest are.
#[verifier::opaque]
pub open spec fn hidden_rest(r: Rules) -> nat {
    one_if(!r.folder.is_plain()) + one_if(!plainly_numbered(r.numbering)) + one_if(
        !r.extension.is_plain(),
    ) + one_if(!r.filters.is_plain())
}

/// How many groups of rules are set that the short form does not show.
pub open spec fn hidden_rules_of(r: Rules) -> nat {
    hidden_changes(r) + hidden_moves(r) + hidden_rest(r)
}

fn remove_is_plain(r: &RemoveRule) -> (b: bool)
    ensures
        b == r.is_plain(),
{
    let counts = r.first == 0 && r.last == 0 && r.from == 0 && r.to == 0;
    let texts = r.chars.as_str().is_empty() && r.words.as_str().is_empty()
        && r.crop_at.as_str().is_empty();
    let kinds = !r.digits && !r.accents && !r.symbols && !r.high;
    let rest = !r.trim && !r.double_spaces && !r.lead_dots;
    counts && texts && r.crop == Crop::Off && kinds && rest
}

fn moves_is_plain(r: &MoveRule) -> (b: bool)
    ensures
        b == r.is_plain(),
{
    r.mode == MoveMode::Off && r.count == 0 && r.at == 0 && r.to == Place::Start
        && r.separator.as_str().is_empty()
}

fn date_is_plain(r: &DateRule) -> (b: bool)
    ensures
        b == r.is_plain(),
{
    r.side == Side::Off && r.source == DateSource::Recorded && same(
        r.format.as_str(),
        "%Y-%m-%d_%H-%M-%S",
    ) && same(r.separator.as_str(), "_") && !r.fallback
}

fn folder_is_plain(r: &FolderRule) -> (b: bool)
    ensures
        b == r.is_plain(),
{
    r.side == Side::Off && same(r.separator.as_str(), "_") && r.levels == 1
}

/// Whether the number is as it starts out, but for what the short form shows
/// of it.
pub open spec fn plainly_numbered(r: NumberRule) -> bool {
    &&& r.at == 1
    &&& r.step == 1
    &&& r.separator@ == "_"@
    &&& r.restart_after == 0
    &&& !r.per_folder
    &&& r.kind == NumberKind::Decimal
}

fn is_plainly_numbered(r: &NumberRule) -> (b: bool)
    ensures
        b == plainly_numbered(*r),
{
    r.at == 1 && r.step == 1 && same(r.separator.as_str(), "_") && r.restart_after == 0
        && !r.per_folder && r.kind == NumberKind::Decimal
}

fn filters_are_plain(r: &Filters) -> (b: bool)
    ensures
        b == r.is_plain(),
{
    same(r.mask.as_str(), "*") && !r.match_case && !r.subfolders && r.audio_only
}

fn one(b: bool) -> (n: usize)
    ensures
        n == one_if(b),
        n <= 1,
{
    proof {
        reveal(one_if);
    }
    if b {
        1
    } else {
        0
    }
}

fn count_changes(r: &Rules) -> (n: usize)
    ensures
        n == hidden_changes(*r),
        n <= 4,
{
    proof {
        reveal(hidden_changes);
    }
    let regex_plain = r.regex.find.as_str().is_empty() && r.regex.replace.as_str().is_empty()
        && !r.regex.extension;
    let name_plain = r.name.mode == NameMode::Keep && r.name.fixed.as_str().is_empty();
    one(!regex_plain) + one(!name_plain) + one(r.replace.match_case) + one(
        !r.case.except.as_str().is_empty(),
    )
}

fn count_moves(r: &Rules) -> (n: usize)
    ensures
        n == hidden_moves(*r),
        n <= 4,
{
    proof {
        reveal(hidden_moves);
    }
    one(!remove_is_plain(&r.remove)) + one(!moves_is_plain(&r.moves)) + one(
        !r.add.insert.as_str().is_empty() || r.add.word_space,
    ) + one(!date_is_plain(&r.date))
}

fn count_rest(r: &Rules) -> (n: usize)
    ensures
        n == hidden_rest(*r),
        n <= 4,
{
    proof {
        reveal(hidden_rest);
    }
    let extension_plain = r.extension.mode == ExtensionMode::Same
        && r.extension.text.as_str().is_empty();
    one(!folder_is_plain(&r.folder)) + one(!is_plainly_numbered(&r.numbering)) + one(
        !extension_plain,
    ) + one(!filters_are_plain(&r.filters))
}

/// Rules the short form does not show, still set from the window.
pub fn hidden_rules(r: &Rules) -> (n: usize)
    ensures
        n == hidden_rules_of(*r),
{
    count_changes(r) + count_moves(r) + count_rest(r)
}

} // verus!
