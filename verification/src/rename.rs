//! Renaming many files at once by rules, in the order of their panels: each
//! rule changes the name the one before it left. A batch either renames
//! every file or leaves every file as it was, and no rename ever replaces a
//! file already there.

use crate::explorer::{digit_run, goes_first, is_audio, is_audio_path, sooner};
use crate::order::{insert_by, sort_by};
use crate::path::{
    file_name, file_name_of, find_last, last_of, parent, parent_of, with_file_name,
    with_file_name_of,
};
use crate::pattern::{
    escape, escaped_of, find_match, format_moment, formatted, problem_with, regex_error,
    regex_found, regex_replaced, regex_replaced_plainly, replace_matches, replace_matches_plainly,
    Moment,
};
use crate::text::{
    alphanumeric, chars, control, decimal, digit, digits_of, extend, holds, is_alphanumeric,
    is_control, is_digit, is_lowercase, is_uppercase, is_white, join_chars, joined, lower,
    lowercase, lowered, part, runs, same, same_chars, split_chars, split_of, string, trim_chars,
    trim_of, upper, upper_char, uppercase, uppered, uppered_char, white, zero_padded,
};
use crate::wav::first_index;
use vstd::prelude::*;
use vstd::utf8::{decode_utf8, encode_utf8};

verus! {

/// A file the rules can rename, with what they may take from it. Times are
/// local ones.
#[derive(Debug)]
pub struct Candidate {
    pub path: String,
    pub size: u64,
    pub modified: Option<Moment>,
    /// When it was modified in nanoseconds from the epoch, for sorting.
    pub modified_at: Option<i128>,
    pub created: Option<Moment>,
    /// When the recording began, from a Broadcast WAV or iXML header.
    pub recorded: Option<Moment>,
}

impl Candidate {
    pub fn name(&self) -> (r: String)
        ensures
            r@ == file_name_of(self.path@),
    {
        file_name(self.path.as_str())
    }
}

impl Clone for Candidate {
    fn clone(&self) -> (r: Self)
        ensures
            r == *self,
    {
        Candidate {
            path: self.path.clone(),
            size: self.size,
            modified: self.modified,
            modified_at: self.modified_at,
            created: self.created,
            recorded: self.recorded,
        }
    }
}

/// Everything the rules can do, panel by panel.
#[derive(Clone, Debug, PartialEq)]
pub struct Rules {
    pub regex: RegexRule,
    pub name: NameRule,
    pub replace: ReplaceRule,
    pub case: CaseRule,
    pub remove: RemoveRule,
    pub moves: MoveRule,
    pub add: AddRule,
    pub date: DateRule,
    pub folder: FolderRule,
    pub numbering: NumberRule,
    pub extension: ExtensionRule,
    pub filters: Filters,
}

/// Panel 1: A regular expression and what replaces its matches; `\1` and `$1`
/// both stand for the first group.
#[derive(Clone, Debug, PartialEq)]
pub struct RegexRule {
    pub find: String,
    pub replace: String,
    /// Match against the extension too.
    pub extension: bool,
}

/// Panel 2: What happens to the name as it stands.
#[derive(Clone, Copy, Debug, PartialEq, Eq, Structural)]
pub enum NameMode {
    Keep,
    /// Removed, for the rules after to build a new one.
    Remove,
    /// Replaced by `NameRule::fixed`.
    Fixed,
    Reverse,
}

#[derive(Clone, Debug, PartialEq)]
pub struct NameRule {
    pub mode: NameMode,
    pub fixed: String,
}

/// Panel 3: Text replaced wherever it appears.
#[derive(Clone, Debug, PartialEq)]
pub struct ReplaceRule {
    pub find: String,
    pub with: String,
    pub match_case: bool,
}

#[derive(Clone, Copy, Debug, PartialEq, Eq, Structural)]
pub enum Case {
    Same,
    Lower,
    Upper,
    /// Each word's first letter capital, the rest small.
    Title,
    /// Only the first letter capital.
    Sentence,
}

impl Case {
    pub const ALL: [Case; 5] = [
        Case::Same,
        Case::Lower,
        Case::Upper,
        Case::Title,
        Case::Sentence,
    ];

    pub fn label(self) -> (r: &'static str)
        ensures
            r@ == match self {
                Case::Same => "Same"@,
                Case::Lower => "lower"@,
                Case::Upper => "UPPER"@,
                Case::Title => "Title"@,
                Case::Sentence => "Sentence"@,
            },
    {
        match self {
            Case::Same => "Same",
            Case::Lower => "lower",
            Case::Upper => "UPPER",
            Case::Title => "Title",
            Case::Sentence => "Sentence",
        }
    }
}

/// Panel 4: Letter case, with words that always stay as typed.
#[derive(Clone, Debug, PartialEq)]
pub struct CaseRule {
    pub case: Case,
    /// Separated by spaces or commas.
    pub except: String,
}

#[derive(Clone, Copy, Debug, PartialEq, Eq, Structural)]
pub enum Crop {
    Off,
    /// Everything before the text goes.
    Before,
    /// Everything after the text goes.
    After,
}

/// Panel 5: Characters and words taken out.
#[derive(Clone, Debug, PartialEq)]
pub struct RemoveRule {
    pub first: usize,
    pub last: usize,
    /// Characters `from` to `to`, counting from 1; 0 turns it off.
    pub from: usize,
    pub to: usize,
    /// Each of these characters, wherever it is.
    pub chars: String,
    /// Each of these words, separated by spaces.
    pub words: String,
    pub crop: Crop,
    pub crop_at: String,
    pub digits: bool,
    /// Letters with accents lose them.
    pub accents: bool,
    /// Anything that is neither a letter, a digit, a space, `-` nor `_`.
    pub symbols: bool,
    /// Anything outside plain ASCII.
    pub high: bool,
    /// Spaces at either end.
    pub trim: bool,
    /// Runs of spaces become one.
    pub double_spaces: bool,
    pub lead_dots: bool,
}

#[derive(Clone, Copy, Debug, PartialEq, Eq, Structural)]
pub enum MoveMode {
    Off,
    CopyFirst,
    CopyLast,
    MoveFirst,
    MoveLast,
}

#[derive(Clone, Copy, Debug, PartialEq, Eq, Structural)]
pub enum Place {
    Start,
    End,
    /// Before the character at `MoveRule::at` or `NumberRule::at`, counting
    /// from 1.
    At,
}

/// Panel 6: Some characters from one end copied or moved elsewhere.
#[derive(Clone, Debug, PartialEq)]
pub struct MoveRule {
    pub mode: MoveMode,
    pub count: usize,
    pub to: Place,
    pub at: usize,
    pub separator: String,
}

/// Panel 7: Text added.
#[derive(Clone, Debug, PartialEq)]
pub struct AddRule {
    pub prefix: String,
    /// Put before the character at `at`, counting from 1; 0 turns it off.
    pub insert: String,
    pub at: usize,
    pub suffix: String,
    /// A space before each capital that follows a small letter or digit.
    pub word_space: bool,
}

#[derive(Clone, Copy, Debug, PartialEq, Eq, Structural)]
pub enum Side {
    Off,
    Prefix,
    Suffix,
}

#[derive(Clone, Copy, Debug, PartialEq, Eq, Structural)]
pub enum DateSource {
    /// When the recording began, as its metadata says.
    Recorded,
    Modified,
    Created,
    Now,
}

impl DateSource {
    pub const ALL: [DateSource; 4] = [
        DateSource::Recorded,
        DateSource::Modified,
        DateSource::Created,
        DateSource::Now,
    ];

    pub fn label(self) -> (r: &'static str)
        ensures
            r@ == match self {
                DateSource::Recorded => "Recorded"@,
                DateSource::Modified => "Modified"@,
                DateSource::Created => "Created"@,
                DateSource::Now => "Now"@,
            },
    {
        match self {
            DateSource::Recorded => "Recorded",
            DateSource::Modified => "Modified",
            DateSource::Created => "Created",
            DateSource::Now => "Now",
        }
    }
}

/// Date formats offered, in `chrono`'s notation.
pub const DATE_FORMATS: [&'static str; 6] = [
    "%Y-%m-%d",
    "%Y%m%d",
    "%Y-%m-%d_%H-%M-%S",
    "%Y%m%d_%H%M%S",
    "%y%m%d",
    "%H%M%S",
];

/// Panel 8: A date and time added to the name.
#[derive(Clone, Debug, PartialEq)]
pub struct DateRule {
    pub side: Side,
    pub source: DateSource,
    /// In `chrono`'s notation, as in `DATE_FORMATS`.
    pub format: String,
    pub separator: String,
    /// When the recording's metadata has no time, the file's modification
    /// time instead.
    pub fallback: bool,
}

/// Panel 9: The names of the folders the file is in.
#[derive(Clone, Debug, PartialEq)]
pub struct FolderRule {
    pub side: Side,
    pub separator: String,
    /// How many folders up, the nearest last.
    pub levels: usize,
}

#[derive(Clone, Copy, Debug, PartialEq, Eq, Structural)]
pub enum NumberPlace {
    Off,
    Prefix,
    Suffix,
    Both,
    /// Before the character at `NumberRule::at`.
    At,
}

#[derive(Clone, Copy, Debug, PartialEq, Eq, Structural)]
pub enum NumberKind {
    Decimal,
    /// a to z, then aa.
    Lower,
    Upper,
    Roman,
}

impl NumberKind {
    pub const ALL: [NumberKind; 4] = [
        NumberKind::Decimal,
        NumberKind::Lower,
        NumberKind::Upper,
        NumberKind::Roman,
    ];

    pub fn label(self) -> (r: &'static str)
        ensures
            r@ == match self {
                NumberKind::Decimal => "1 2 3"@,
                NumberKind::Lower => "a b c"@,
                NumberKind::Upper => "A B C"@,
                NumberKind::Roman => "I II III"@,
            },
    {
        match self {
            NumberKind::Decimal => "1 2 3",
            NumberKind::Lower => "a b c",
            NumberKind::Upper => "A B C",
            NumberKind::Roman => "I II III",
        }
    }
}

/// Panel 10: A running number.
#[derive(Clone, Debug, PartialEq)]
pub struct NumberRule {
    pub place: NumberPlace,
    pub at: usize,
    pub start: i64,
    pub step: i64,
    /// At least this many digits, with zeros in front.
    pub pad: usize,
    pub separator: String,
    /// Start again whenever the first this many characters of the name
    /// change; 0 never does.
    pub restart_after: usize,
    /// Start again in every folder.
    pub per_folder: bool,
    pub kind: NumberKind,
}

#[derive(Clone, Copy, Debug, PartialEq, Eq, Structural)]
pub enum ExtensionMode {
    Same,
    Lower,
    Upper,
    Title,
    /// Replaced by `ExtensionRule::text`.
    Fixed,
    /// `ExtensionRule::text` added after it.
    Extra,
    Remove,
}

impl ExtensionMode {
    pub const ALL: [ExtensionMode; 7] = [
        ExtensionMode::Same,
        ExtensionMode::Lower,
        ExtensionMode::Upper,
        ExtensionMode::Title,
        ExtensionMode::Fixed,
        ExtensionMode::Extra,
        ExtensionMode::Remove,
    ];

    pub fn label(self) -> (r: &'static str)
        ensures
            r@ == match self {
                ExtensionMode::Same => "Same"@,
                ExtensionMode::Lower => "lower"@,
                ExtensionMode::Upper => "UPPER"@,
                ExtensionMode::Title => "Title"@,
                ExtensionMode::Fixed => "Fixed"@,
                ExtensionMode::Extra => "Extra"@,
                ExtensionMode::Remove => "Remove"@,
            },
    {
        match self {
            ExtensionMode::Same => "Same",
            ExtensionMode::Lower => "lower",
            ExtensionMode::Upper => "UPPER",
            ExtensionMode::Title => "Title",
            ExtensionMode::Fixed => "Fixed",
            ExtensionMode::Extra => "Extra",
            ExtensionMode::Remove => "Remove",
        }
    }
}

/// Panel 11: The extension.
#[derive(Clone, Debug, PartialEq)]
pub struct ExtensionRule {
    pub mode: ExtensionMode,
    pub text: String,
}

/// Panel 12: Which files are listed at all.
#[derive(Clone, Debug, PartialEq)]
pub struct Filters {
    /// Patterns with `*` and `?`, separated by `;`.
    pub mask: String,
    pub match_case: bool,
    pub subfolders: bool,
    /// Only the kinds of file the explorer lists.
    pub audio_only: bool,
}

impl RegexRule {
    /// Whether it is as it starts out.
    pub open spec fn is_plain(self) -> bool {
        &&& self.find@.len() == 0
        &&& self.replace@.len() == 0
        &&& !self.extension
    }
}

impl Default for RegexRule {
    fn default() -> (r: Self)
        ensures
            r.is_plain(),
    {
        RegexRule { find: String::new(), replace: String::new(), extension: false }
    }
}

impl NameRule {
    /// Whether it is as it starts out.
    pub open spec fn is_plain(self) -> bool {
        &&& self.mode == NameMode::Keep
        &&& self.fixed@.len() == 0
    }
}

impl Default for NameRule {
    fn default() -> (r: Self)
        ensures
            r.is_plain(),
    {
        NameRule { mode: NameMode::Keep, fixed: String::new() }
    }
}

impl ReplaceRule {
    /// Whether it is as it starts out.
    pub open spec fn is_plain(self) -> bool {
        &&& self.find@.len() == 0
        &&& self.with@.len() == 0
        &&& !self.match_case
    }
}

impl Default for ReplaceRule {
    fn default() -> (r: Self)
        ensures
            r.is_plain(),
    {
        ReplaceRule { find: String::new(), with: String::new(), match_case: false }
    }
}

impl CaseRule {
    /// Whether it is as it starts out.
    pub open spec fn is_plain(self) -> bool {
        &&& self.case == Case::Same
        &&& self.except@.len() == 0
    }
}

impl Default for CaseRule {
    fn default() -> (r: Self)
        ensures
            r.is_plain(),
    {
        CaseRule { case: Case::Same, except: String::new() }
    }
}

impl RemoveRule {
    /// Whether it is as it starts out.
    pub open spec fn is_plain(self) -> bool {
        &&& self.first == 0 && self.last == 0 && self.from == 0 && self.to == 0
        &&& self.chars@.len() == 0 && self.words@.len() == 0 && self.crop_at@.len() == 0
        &&& self.crop == Crop::Off
        &&& !self.digits && !self.accents && !self.symbols && !self.high
        &&& !self.trim && !self.double_spaces && !self.lead_dots
    }
}

impl Default for RemoveRule {
    fn default() -> (r: Self)
        ensures
            r.is_plain(),
    {
        RemoveRule {
            first: 0,
            last: 0,
            from: 0,
            to: 0,
            chars: String::new(),
            words: String::new(),
            crop: Crop::Off,
            crop_at: String::new(),
            digits: false,
            accents: false,
            symbols: false,
            high: false,
            trim: false,
            double_spaces: false,
            lead_dots: false,
        }
    }
}

impl MoveRule {
    /// Whether it is as it starts out.
    pub open spec fn is_plain(self) -> bool {
        &&& self.mode == MoveMode::Off
        &&& self.count == 0 && self.at == 0
        &&& self.to == Place::Start
        &&& self.separator@.len() == 0
    }
}

impl Default for MoveRule {
    fn default() -> (r: Self)
        ensures
            r.is_plain(),
    {
        MoveRule {
            mode: MoveMode::Off,
            count: 0,
            to: Place::Start,
            at: 0,
            separator: String::new(),
        }
    }
}

impl AddRule {
    /// Whether it is as it starts out.
    pub open spec fn is_plain(self) -> bool {
        &&& self.prefix@.len() == 0 && self.insert@.len() == 0 && self.suffix@.len() == 0
        &&& self.at == 0
        &&& !self.word_space
    }
}

impl Default for AddRule {
    fn default() -> (r: Self)
        ensures
            r.is_plain(),
    {
        AddRule {
            prefix: String::new(),
            insert: String::new(),
            at: 0,
            suffix: String::new(),
            word_space: false,
        }
    }
}

impl DateRule {
    /// Whether it is as it starts out.
    pub open spec fn is_plain(self) -> bool {
        &&& self.side == Side::Off
        &&& self.source == DateSource::Recorded
        &&& self.format@ == "%Y-%m-%d_%H-%M-%S"@
        &&& self.separator@ == "_"@
        &&& !self.fallback
    }
}

impl Default for DateRule {
    fn default() -> (r: Self)
        ensures
            r.is_plain(),
    {
        DateRule {
            side: Side::Off,
            source: DateSource::Recorded,
            format: "%Y-%m-%d_%H-%M-%S".to_owned(),
            separator: "_".to_owned(),
            fallback: false,
        }
    }
}

impl FolderRule {
    /// Whether it is as it starts out.
    pub open spec fn is_plain(self) -> bool {
        &&& self.side == Side::Off
        &&& self.separator@ == "_"@
        &&& self.levels == 1
    }
}

impl Default for FolderRule {
    fn default() -> (r: Self)
        ensures
            r.is_plain(),
    {
        FolderRule { side: Side::Off, separator: "_".to_owned(), levels: 1 }
    }
}

impl NumberRule {
    /// Whether it is as it starts out.
    pub open spec fn is_plain(self) -> bool {
        &&& self.place == NumberPlace::Off
        &&& self.at == 1 && self.start == 1 && self.step == 1 && self.pad == 2
        &&& self.separator@ == "_"@
        &&& self.restart_after == 0
        &&& !self.per_folder
        &&& self.kind == NumberKind::Decimal
    }
}

impl Default for NumberRule {
    fn default() -> (r: Self)
        ensures
            r.is_plain(),
    {
        NumberRule {
            place: NumberPlace::Off,
            at: 1,
            start: 1,
            step: 1,
            pad: 2,
            separator: "_".to_owned(),
            restart_after: 0,
            per_folder: false,
            kind: NumberKind::Decimal,
        }
    }
}

impl ExtensionRule {
    /// Whether it is as it starts out.
    pub open spec fn is_plain(self) -> bool {
        &&& self.mode == ExtensionMode::Same
        &&& self.text@.len() == 0
    }
}

impl Default for ExtensionRule {
    fn default() -> (r: Self)
        ensures
            r.is_plain(),
    {
        ExtensionRule { mode: ExtensionMode::Same, text: String::new() }
    }
}

impl Filters {
    /// Whether it is as it starts out.
    pub open spec fn is_plain(self) -> bool {
        &&& self.mask@ == "*"@
        &&& !self.match_case && !self.subfolders
        &&& self.audio_only
    }
}

impl Default for Filters {
    fn default() -> (r: Self)
        ensures
            r.is_plain(),
    {
        Filters {
            mask: "*".to_owned(),
            match_case: false,
            subfolders: false,
            audio_only: true,
        }
    }
}

impl Default for Rules {
    /// Rules that keep every name.
    fn default() -> (r: Self)
        ensures
            r.is_plain(),
    {
        Rules {
            regex: RegexRule::default(),
            name: NameRule::default(),
            replace: ReplaceRule::default(),
            case: CaseRule::default(),
            remove: RemoveRule::default(),
            moves: MoveRule::default(),
            add: AddRule::default(),
            date: DateRule::default(),
            folder: FolderRule::default(),
            numbering: NumberRule::default(),
            extension: ExtensionRule::default(),
            filters: Filters::default(),
        }
    }
}

impl Rules {
    /// Whether every panel is as it starts out.
    pub open spec fn is_plain(self) -> bool {
        &&& self.regex.is_plain()
        &&& self.name.is_plain()
        &&& self.replace.is_plain()
        &&& self.case.is_plain()
        &&& self.remove.is_plain()
        &&& self.moves.is_plain()
        &&& self.add.is_plain()
        &&& self.date.is_plain()
        &&& self.folder.is_plain()
        &&& self.numbering.is_plain()
        &&& self.extension.is_plain()
        &&& self.filters.is_plain()
    }

    /// Whether every panel is off.
    pub open spec fn keeps_names(self) -> bool {
        &&& self.regex.find@.len() == 0
        &&& self.name.mode == NameMode::Keep
        &&& self.replace.find@.len() == 0
        &&& self.case.case == Case::Same
        &&& self.remove.is_off()
        &&& self.moves.mode == MoveMode::Off
        &&& self.add.prefix@.len() == 0 && self.add.insert@.len() == 0 && self.add.suffix@.len()
            == 0 && !self.add.word_space
        &&& self.date.side == Side::Off
        &&& self.folder.side == Side::Off
        &&& self.numbering.place == NumberPlace::Off
        &&& self.extension.mode == ExtensionMode::Same
    }
}

impl RemoveRule {
    /// Whether nothing is taken out.
    pub open spec fn is_off(self) -> bool {
        &&& self.first == 0 && self.last == 0 && self.from == 0
        &&& self.chars@.len() == 0 && self.words@.len() == 0 && self.crop == Crop::Off
        &&& !self.digits && !self.accents && !self.symbols && !self.high
        &&& !self.trim && !self.double_spaces && !self.lead_dots
    }
}

/// Whether `t` from `j` on matches `p` from `i` on, where `*` stands for any
/// run of characters and `?` for any one.
pub open spec fn mask_from(p: Seq<char>, t: Seq<char>, i: int, j: int) -> bool
    decreases p.len() - i, t.len() - j,
{
    if i >= p.len() {
        j >= t.len()
    } else if p[i] == '*' {
        mask_from(p, t, i + 1, j) || (j < t.len() && mask_from(p, t, i, j + 1))
    } else {
        j < t.len() && (p[i] == '?' || p[i] == t[j]) && mask_from(p, t, i + 1, j + 1)
    }
}

/// Whether `text` matches `pattern`, where `*` stands for any run of
/// characters and `?` for any one.
pub open spec fn matches_mask(pattern: Seq<char>, text: Seq<char>) -> bool {
    mask_from(pattern, text, 0, 0)
}

/// A star gives up some of what follows it to what is behind it.
proof fn lemma_star_gives(p: Seq<char>, t: Seq<char>, i: int, j: int) -> (k: int)
    requires
        0 <= i < p.len(),
        p[i] == '*',
        0 <= j <= t.len(),
        mask_from(p, t, i, j),
    ensures
        j <= k <= t.len(),
        mask_from(p, t, i + 1, k),
    decreases t.len() - j,
{
    if mask_from(p, t, i + 1, j) {
        j
    } else {
        lemma_star_gives(p, t, i, j + 1)
    }
}

/// A stretch of the pattern without a star takes as many characters as it
/// has.
proof fn lemma_stretch_takes(p: Seq<char>, t: Seq<char>, a: int, b: int, j: int)
    requires
        0 <= a <= b <= p.len(),
        0 <= j <= t.len(),
        forall|q: int| a <= q < b ==> p[q] != '*',
        mask_from(p, t, a, j),
    ensures
        j + (b - a) <= t.len(),
        mask_from(p, t, b, j + (b - a)),
    decreases b - a,
{
    if a < b {
        lemma_stretch_takes(p, t, a + 1, b, j + 1);
    }
}

/// A star can take more than it must.
proof fn lemma_star_takes(p: Seq<char>, t: Seq<char>, i: int, j: int, k: int)
    requires
        0 <= i < p.len(),
        p[i] == '*',
        0 <= j <= k <= t.len(),
        mask_from(p, t, i, k),
    ensures
        mask_from(p, t, i, j),
    decreases k - j,
{
    if j < k {
        lemma_star_takes(p, t, i, j + 1, k);
    }
}

proof fn lemma_only_stars(p: Seq<char>, t: Seq<char>, i: int)
    requires
        0 <= i <= p.len(),
    ensures
        mask_from(p, t, i, t.len() as int) == (forall|q: int| i <= q < p.len() ==> p[q] == '*'),
    decreases p.len() - i,
{
    if i < p.len() {
        lemma_only_stars(p, t, i + 1);
    }
}

/// Whether `text` matches `pattern`, where `*` stands for any run of
/// characters and `?` for any one.
pub fn wildcard(pattern: &str, text: &str) -> (r: bool)
    ensures
        r == matches_mask(pattern@, text@),
{
    let p = chars(pattern);
    let t = chars(text);
    let mut pi: usize = 0;
    let mut ti: usize = 0;
    // The pattern behind the last star, and the text it is tried at.
    let mut behind: usize = 0;
    let mut mark: usize = 0;
    while ti < t.len()
        invariant
            p@ == pattern@,
            t@ == text@,
            behind <= pi <= p@.len(),
            mark <= ti <= t@.len(),
            ti - mark == pi - behind,
            forall|q: int| behind <= q < pi ==> p@[q] != '*',
            behind > 0 ==> p@[behind - 1] == '*',
            behind == 0 ==> mark == 0,
            mask_from(p@, t@, behind as int, mark as int) == mask_from(
                p@,
                t@,
                pi as int,
                ti as int,
            ),
            matches_mask(pattern@, text@) == if behind == 0 {
                mask_from(p@, t@, 0, 0)
            } else {
                mask_from(p@, t@, behind - 1, mark as int)
            },
        decreases p@.len() - behind, t@.len() - mark, p@.len() - pi,
    {
        if pi < p.len() && p[pi] == '*' {
            proof {
                if behind > 0 {
                    if mask_from(p@, t@, behind - 1, mark as int) {
                        let k = lemma_star_gives(p@, t@, behind - 1, mark as int);
                        lemma_stretch_takes(p@, t@, behind as int, pi as int, k);
                        lemma_star_takes(p@, t@, pi as int, ti as int, k + (pi - behind));
                    }
                    if mask_from(p@, t@, pi as int, ti as int) {
                        assert(mask_from(p@, t@, behind as int, mark as int));
                    }
                }
            }
            pi = pi + 1;
            behind = pi;
            mark = ti;
        } else if pi < p.len() && (p[pi] == '?' || p[pi] == t[ti]) {
            pi = pi + 1;
            ti = ti + 1;
        } else if behind > 0 {
            pi = behind;
            mark = mark + 1;
            ti = mark;
        } else {
            return false;
        }
    }
    proof {
        if behind > 0 {
            if mask_from(p@, t@, behind - 1, mark as int) {
                let k = lemma_star_gives(p@, t@, behind - 1, mark as int);
                lemma_stretch_takes(p@, t@, behind as int, pi as int, k);
                assert(k == mark);
            }
        }
        lemma_only_stars(p@, t@, pi as int);
    }
    while pi < p.len()
        invariant
            pi <= p@.len(),
            p@ == pattern@,
            t@ == text@,
            mask_from(p@, t@, pi as int, t@.len() as int) == matches_mask(pattern@, text@),
        decreases p@.len() - pi,
    {
        if p[pi] != '*' {
            return false;
        }
        proof {
            lemma_only_stars(p@, t@, pi as int);
            lemma_only_stars(p@, t@, pi + 1);
        }
        pi = pi + 1;
    }
    true
}

/// `s`, or its lower case where case does not count.
pub open spec fn folded(s: Seq<char>, match_case: bool) -> Seq<char> {
    if match_case {
        s
    } else {
        lowered(s)
    }
}

/// Whether one of the masks in `parts`, trimmed, is not empty and matches.
pub open spec fn some_mask(parts: Seq<Seq<char>>, name: Seq<char>, match_case: bool) -> bool {
    exists|i: int|
        0 <= i < parts.len() && trim_of(#[trigger] parts[i]).len() > 0 && matches_mask(
            folded(trim_of(parts[i]), match_case),
            folded(name, match_case),
        )
}

impl Filters {
    /// Whether the filters let a path through.
    pub open spec fn lets_through(self, path: Seq<char>) -> bool {
        &&& self.audio_only ==> is_audio_path(path)
        &&& some_mask(split_of(self.mask@, seq![';']), file_name_of(path), self.match_case)
    }

    fn fold(&self, s: &str) -> (r: String)
        ensures
            r@ == folded(s@, self.match_case),
    {
        if self.match_case {
            s.to_owned()
        } else {
            lower(s)
        }
    }

    pub fn admits(&self, path: &str) -> (r: bool)
        ensures
            r == self.lets_through(path@),
    {
        if self.audio_only && !is_audio(path) {
            return false;
        }
        let name = file_name(path);
        let name = self.fold(name.as_str());
        let mask = chars(self.mask.as_str());
        let seps: [char; 1] = [';'];
        assert(seps@ =~= seq![';']);
        let parts = split_chars(mask.as_slice(), seps.as_slice());
        let ghost all = runs(parts@);
        let mut i: usize = 0;
        while i < parts.len()
            invariant
                i <= parts@.len(),
                all == runs(parts@),
                all == split_of(self.mask@, seq![';']),
                self.audio_only ==> is_audio_path(path@),
                name@ == folded(file_name_of(path@), self.match_case),
                forall|j: int|
                    0 <= j < i ==> !(trim_of(#[trigger] all[j]).len() > 0 && matches_mask(
                        folded(trim_of(all[j]), self.match_case),
                        name@,
                    )),
            decreases parts@.len() - i,
        {
            assert(all[i as int] == parts@[i as int]@);
            let t = trim_chars(parts[i].as_slice());
            if t.len() > 0 {
                let m = string(t.as_slice());
                let m = self.fold(m.as_str());
                if wildcard(m.as_str(), name.as_str()) {
                    return true;
                }
            }
            i = i + 1;
        }
        assert(all.len() == parts@.len());
        false
    }
}

/// Why a file cannot be renamed as planned.
#[derive(Debug, PartialEq)]
pub enum Problem {
    /// The rules themselves are wrong, such as a regular expression that
    /// does not parse.
    Rules(String),
    /// Not a name a file can have.
    Invalid(String),
    /// Another file in the batch would get the same name.
    Duplicate,
    /// A file that keeps its name already has it.
    Exists,
    /// The date asked for is not known for this file.
    NoDate,
}

#[verifier::ext_equal]
pub enum ProblemView {
    Rules(Seq<char>),
    Invalid(Seq<char>),
    Duplicate,
    Exists,
    NoDate,
}

impl View for Problem {
    type V = ProblemView;

    open spec fn view(&self) -> ProblemView {
        match self {
            Problem::Rules(why) => ProblemView::Rules(why@),
            Problem::Invalid(why) => ProblemView::Invalid(why@),
            Problem::Duplicate => ProblemView::Duplicate,
            Problem::Exists => ProblemView::Exists,
            Problem::NoDate => ProblemView::NoDate,
        }
    }
}

/// A problem as it is shown.
pub open spec fn problem_text(p: ProblemView) -> Seq<char> {
    match p {
        ProblemView::Rules(why) => why,
        ProblemView::Invalid(why) => why,
        ProblemView::Duplicate => "another file would get this name too"@,
        ProblemView::Exists => "a file already has this name"@,
        ProblemView::NoDate => "its metadata has no recording time"@,
    }
}

impl Problem {
    /// The problem as it is shown.
    pub fn message(&self) -> (r: String)
        ensures
            r@ == problem_text(self@),
    {
        match self {
            Problem::Rules(why) => why.clone(),
            Problem::Invalid(why) => why.clone(),
            Problem::Duplicate => "another file would get this name too".to_owned(),
            Problem::Exists => "a file already has this name".to_owned(),
            Problem::NoDate => "its metadata has no recording time".to_owned(),
        }
    }
}

impl Clone for Problem {
    fn clone(&self) -> (r: Self)
        ensures
            r@ == self@,
    {
        match self {
            Problem::Rules(why) => Problem::Rules(why.clone()),
            Problem::Invalid(why) => Problem::Invalid(why.clone()),
            Problem::Duplicate => Problem::Duplicate,
            Problem::Exists => Problem::Exists,
            Problem::NoDate => Problem::NoDate,
        }
    }
}

/// The characters that no file name can hold.
pub open spec fn reserved_of(windows: bool) -> Seq<char> {
    if windows {
        seq!['/', '\\', ':', '<', '>', '"', '|', '?', '*']
    } else {
        seq!['/', '\\', ':']
    }
}

/// Whether `name` holds a character that no file name can.
pub open spec fn holds_reserved(name: Seq<char>, windows: bool) -> bool {
    exists|i: int|
        0 <= i < name.len() && (reserved_of(windows).contains(#[trigger] name[i]) || control(
            name[i],
        ))
}

/// Why `name` cannot be a file name, if it cannot.
pub open spec fn invalid_of(name: Seq<char>, windows: bool) -> Option<Seq<char>> {
    if trim_of(name).len() == 0 {
        Some("the name would be empty"@)
    } else if trim_of(name) != name {
        Some("the name would start or end with a space"@)
    } else if name[0] == '.' {
        Some("the name would start with a dot"@)
    } else if holds_reserved(name, windows) {
        Some("the name would hold one of "@ + reserved_of(windows))
    } else if encode_utf8(name).len() as usize > 255 {
        Some("the name would be longer than a disk allows"@)
    } else {
        None
    }
}

/// The characters that no file name can hold.
pub fn reserved(windows: bool) -> (r: Vec<char>)
    ensures
        r@ == reserved_of(windows),
{
    let mut out: Vec<char> = Vec::new();
    out.push('/');
    out.push('\\');
    out.push(':');
    if windows {
        out.push('<');
        out.push('>');
        out.push('"');
        out.push('|');
        out.push('?');
        out.push('*');
    }
    assert(out@ =~= reserved_of(windows));
    out
}

/// Whether `name` holds one of `barred` or a control code.
pub fn holds_one_of(name: &[char], barred: &[char]) -> (r: bool)
    ensures
        r == exists|i: int|
            0 <= i < name@.len() && (barred@.contains(#[trigger] name@[i]) || control(name@[i])),
{
    let mut i: usize = 0;
    while i < name.len()
        invariant
            i <= name@.len(),
            forall|j: int|
                0 <= j < i ==> !(barred@.contains(#[trigger] name@[j]) || control(name@[j])),
        decreases name@.len() - i,
    {
        if holds(barred, name[i]) || is_control(name[i]) {
            assert(barred@.contains(name@[i as int]) || control(name@[i as int]));
            return true;
        }
        i = i + 1;
    }
    false
}

/// Why `name` cannot be a file name, if it cannot.
pub fn invalid(name: &str, windows: bool) -> (r: Option<String>)
    ensures
        match r {
            Some(why) => invalid_of(name@, windows) == Some(why@),
            None => invalid_of(name@, windows) is None,
        },
{
    let v = chars(name);
    let t = trim_chars(v.as_slice());
    let barred = reserved(windows);
    if t.len() == 0 {
        Some("the name would be empty".to_owned())
    } else if !same_chars(t.as_slice(), v.as_slice()) {
        Some("the name would start or end with a space".to_owned())
    } else if v[0] == '.' {
        Some("the name would start with a dot".to_owned())
    } else if holds_one_of(v.as_slice(), barred.as_slice()) {
        let mut why = "the name would hold one of ".to_owned();
        why.append(string(barred.as_slice()).as_str());
        Some(why)
    } else if name.len() > 255 {
        Some("the name would be longer than a disk allows".to_owned())
    } else {
        None
    }
}

/// A name as the part before its last dot and the part after it.
pub open spec fn split_name(name: Seq<char>) -> (Seq<char>, Seq<char>) {
    let dot = last_of(name, '.');
    if dot > 0 {
        (name.take(dot), name.skip(dot + 1))
    } else {
        (name, Seq::empty())
    }
}

pub open spec fn join_name(stem: Seq<char>, ext: Seq<char>) -> Seq<char> {
    if ext.len() == 0 {
        stem
    } else {
        stem + seq!['.'] + ext
    }
}

/// A name as the part before its last dot and the part after it.
pub fn split(name: &[char]) -> (r: (Vec<char>, Vec<char>))
    ensures
        (r.0@, r.1@) == split_name(name@),
{
    let len: usize = name.len();
    match find_last(name, '.') {
        Some(dot) => {
            if dot > 0 {
                assert(name@.subrange(0, dot as int) =~= name@.take(dot as int));
                assert(name@.subrange(dot + 1, len as int) =~= name@.skip(dot + 1));
                return (part(name, 0, dot), part(name, dot + 1, len));
            }
        },
        None => {},
    }
    assert(name@.subrange(0, len as int) =~= name@);
    (part(name, 0, len), Vec::new())
}

pub fn join(stem: &[char], ext: &[char]) -> (r: Vec<char>)
    ensures
        r@ == join_name(stem@, ext@),
{
    let mut out = part(stem, 0, stem.len());
    assert(out@ =~= stem@);
    if ext.len() > 0 {
        out.push('.');
        extend(&mut out, ext);
        assert(out@ =~= stem@ + seq!['.'] + ext@);
    }
    out
}

/// `\1`, as a group is often written, as `${1}`.
pub open spec fn groups_of(s: Seq<char>) -> Seq<char>
    decreases s.len(),
    via groups_end
{
    if s.len() == 0 {
        Seq::empty()
    } else if s[0] == '\\' && s.len() > 1 && digit(s[1]) {
        let n = digit_run(s.skip(1)) as int;
        seq!['$', '{'] + s.subrange(1, 1 + n) + seq!['}'] + groups_of(s.skip(1 + n))
    } else {
        seq![s[0]] + groups_of(s.skip(1))
    }
}

#[via_fn]
proof fn groups_end(s: Seq<char>) {
    if s.len() > 0 {
        crate::explorer::lemma_digit_run(s.skip(1));
    }
}

/// `\1`, as a group is often written, as `${1}`.
pub fn groups(replace: &str) -> (r: String)
    ensures
        r@ == groups_of(replace@),
{
    let v = chars(replace);
    let mut out: Vec<char> = Vec::new();
    let mut i: usize = 0;
    proof {
        assert(v@.skip(0) =~= v@);
        assert(out@ + groups_of(v@.skip(0)) =~= groups_of(v@));
    }
    while i < v.len()
        invariant
            i <= v@.len(),
            v@ == replace@,
            out@ + groups_of(v@.skip(i as int)) == groups_of(v@),
        decreases v@.len() - i,
    {
        let ghost s = v@.skip(i as int);
        let ghost before = out@;
        if v[i] == '\\' && i + 1 < v.len() && is_digit(v[i + 1]) {
            let end = crate::explorer::digits_end(v.as_slice(), i + 1);
            proof {
                crate::explorer::lemma_digit_run(s.skip(1));
                assert(s.skip(1) =~= v@.skip(i + 1));
                assert(s[1] == v@[i + 1]);
                assert(s.skip(1)[0] == v@[i + 1]);
            }
            out.push('$');
            out.push('{');
            let digits = part(v.as_slice(), i + 1, end);
            extend(&mut out, digits.as_slice());
            out.push('}');
            proof {
                let n = digit_run(s.skip(1)) as int;
                assert(digits@ =~= s.subrange(1, 1 + n));
                assert(s.skip(1 + n) =~= v@.skip(end as int));
                assert(out@ + groups_of(v@.skip(end as int)) =~= before + groups_of(s));
            }
            i = end;
        } else {
            out.push(v[i]);
            proof {
                assert(s[0] == v@[i as int]);
                if i + 1 < v@.len() {
                    assert(s[1] == v@[i + 1]);
                }
                assert(s.skip(1) =~= v@.skip(i + 1));
                assert(out@ + groups_of(v@.skip(i + 1)) =~= before + groups_of(s));
            }
            i = i + 1;
        }
    }
    assert(out@ + groups_of(v@.skip(i as int)) =~= out@);
    string(out.as_slice())
}

/// `s` with `with` in place of `find` wherever it stands, from the left.
pub open spec fn replaced_of(s: Seq<char>, find: Seq<char>, with: Seq<char>) -> Seq<char>
    decreases s.len(),
{
    if find.len() == 0 || s.len() < find.len() {
        s
    } else if s.take(find.len() as int) == find {
        with + replaced_of(s.skip(find.len() as int), find, with)
    } else {
        seq![s[0]] + replaced_of(s.skip(1), find, with)
    }
}

/// `v` with `with` in place of `find` wherever it stands, from the left.
pub fn replace_literal(v: &[char], find: &[char], with: &[char]) -> (r: Vec<char>)
    ensures
        r@ == replaced_of(v@, find@, with@),
{
    if find.len() == 0 {
        let out = part(v, 0, v.len());
        assert(out@ =~= v@);
        return out;
    }
    let mut out: Vec<char> = Vec::new();
    let mut i: usize = 0;
    proof {
        assert(v@.skip(0) =~= v@);
        assert(out@ + replaced_of(v@.skip(0), find@, with@) =~= replaced_of(v@, find@, with@));
    }
    while v.len() - i >= find.len()
        invariant
            i <= v@.len(),
            find@.len() > 0,
            out@ + replaced_of(v@.skip(i as int), find@, with@) == replaced_of(v@, find@, with@),
        decreases v@.len() - i,
    {
        let ghost s = v@.skip(i as int);
        let ghost before = out@;
        let here = part(v, i, i + find.len());
        assert(here@ =~= s.take(find@.len() as int));
        if same_chars(here.as_slice(), find) {
            extend(&mut out, with);
            i = i + find.len();
            proof {
                assert(s.skip(find@.len() as int) =~= v@.skip(i as int));
                assert(out@ + replaced_of(v@.skip(i as int), find@, with@) =~= before
                    + replaced_of(s, find@, with@));
            }
        } else {
            out.push(v[i]);
            i = i + 1;
            proof {
                assert(s[0] == v@[i - 1]);
                assert(s.skip(1) =~= v@.skip(i as int));
                assert(out@ + replaced_of(v@.skip(i as int), find@, with@) =~= before
                    + replaced_of(s, find@, with@));
            }
        }
    }
    let rest = part(v, i, v.len());
    assert(rest@ =~= v@.skip(i as int));
    extend(&mut out, rest.as_slice());
    out
}

/// The pattern that matches `find`, whatever its case.
pub open spec fn any_case(find: Seq<char>) -> Seq<char> {
    "(?i)"@ + escaped_of(find)
}

pub open spec fn replaced_by(stem: Seq<char>, rule: ReplaceRule) -> Seq<char> {
    if rule.find@.len() == 0 {
        stem
    } else if rule.match_case {
        replaced_of(stem, rule.find@, rule.with@)
    } else {
        match regex_replaced_plainly(any_case(rule.find@), stem, rule.with@) {
            Some(s) => s,
            None => stem,
        }
    }
}

fn any_case_pattern(find: &str) -> (r: String)
    ensures
        r@ == any_case(find@),
{
    let mut pattern = "(?i)".to_owned();
    pattern.append(escape(find).as_str());
    pattern
}

pub fn replace(stem: &[char], rule: &ReplaceRule) -> (r: Vec<char>)
    ensures
        r@ == replaced_by(stem@, *rule),
{
    let same_stem = part(stem, 0, stem.len());
    assert(same_stem@ =~= stem@);
    if rule.find.as_str().is_empty() {
        return same_stem;
    }
    if rule.match_case {
        let find = chars(rule.find.as_str());
        let with = chars(rule.with.as_str());
        return replace_literal(stem, find.as_slice(), with.as_slice());
    }
    let pattern = any_case_pattern(rule.find.as_str());
    let text = string(stem);
    match replace_matches_plainly(pattern.as_str(), text.as_str(), rule.with.as_str()) {
        Some(s) => chars(s.as_str()),
        None => same_stem,
    }
}

/// `word` with its first letter capital and the rest small.
pub open spec fn title_of(word: Seq<char>) -> Seq<char> {
    if lowered(word).len() == 0 {
        lowered(word)
    } else {
        uppered_char(lowered(word)[0]) + lowered(word).skip(1)
    }
}

pub fn title_word(word: &[char]) -> (r: Vec<char>)
    ensures
        r@ == title_of(word@),
{
    let s = string(word);
    let low = lower(s.as_str());
    let v = chars(low.as_str());
    if v.len() == 0 {
        return v;
    }
    let first = upper_char(v[0]);
    let mut out = chars(first.as_str());
    let rest = part(v.as_slice(), 1, v.len());
    assert(rest@ =~= v@.skip(1));
    extend(&mut out, rest.as_slice());
    out
}

/// What happens to each word.
pub enum WordChange {
    Title,
    /// Spelled as in the list, where it is there but for case.
    Spelled(Vec<Vec<char>>),
    /// Dropped, where its lower case is in the list.
    Dropped(Vec<Vec<char>>),
}

pub enum WordChangeView {
    Title,
    Spelled(Seq<Seq<char>>),
    Dropped(Seq<Seq<char>>),
}

impl View for WordChange {
    type V = WordChangeView;

    open spec fn view(&self) -> WordChangeView {
        match self {
            WordChange::Title => WordChangeView::Title,
            WordChange::Spelled(list) => WordChangeView::Spelled(runs(list@)),
            WordChange::Dropped(list) => WordChangeView::Dropped(runs(list@)),
        }
    }
}

impl WordChangeView {
    pub open spec fn of(self, word: Seq<char>) -> Seq<char> {
        match self {
            WordChangeView::Title => title_of(word),
            WordChangeView::Spelled(list) => {
                let at = first_index(list, |e: Seq<char>| lowered(e) == lowered(word), 0);
                if at < list.len() {
                    list[at]
                } else {
                    word
                }
            },
            WordChangeView::Dropped(list) => if list.contains(lowered(word)) {
                Seq::empty()
            } else {
                word
            },
        }
    }
}

/// Whether `c` is part of a word.
pub open spec fn in_word(c: char) -> bool {
    alphanumeric(c) || c == '\''
}

/// `word`, which is not yet ended, and `s` behind it, with each word changed
/// and what separates the words left as it was.
pub open spec fn words_of(word: Seq<char>, s: Seq<char>, change: WordChangeView) -> Seq<char>
    decreases s.len(),
{
    let ended = if word.len() == 0 {
        Seq::empty()
    } else {
        change.of(word)
    };
    if s.len() == 0 {
        ended
    } else if in_word(s[0]) {
        words_of(word.push(s[0]), s.skip(1), change)
    } else {
        ended + seq![s[0]] + words_of(Seq::empty(), s.skip(1), change)
    }
}

impl WordChange {
    fn apply(&self, word: &[char]) -> (r: Vec<char>)
        ensures
            r@ == self@.of(word@),
    {
        let same_word = part(word, 0, word.len());
        assert(same_word@ =~= word@);
        match self {
            WordChange::Title => title_word(word),
            WordChange::Spelled(list) => {
                let s = string(word);
                let low = lower(s.as_str());
                let ghost p = |e: Seq<char>| lowered(e) == lowered(word@);
                let mut i: usize = 0;
                while i < list.len()
                    invariant
                        i <= list@.len(),
                        low@ == lowered(word@),
                        self@ == WordChangeView::Spelled(runs(list@)),
                        p == (|e: Seq<char>| lowered(e) == lowered(word@)),
                        first_index(runs(list@), p, 0) == first_index(runs(list@), p, i as int),
                    decreases list@.len() - i,
                {
                    assert(runs(list@)[i as int] == list@[i as int]@);
                    let e = string(list[i].as_slice());
                    let l = lower(e.as_str());
                    if same(l.as_str(), low.as_str()) {
                        let out = part(list[i].as_slice(), 0, list[i].len());
                        assert(out@ =~= list@[i as int]@);
                        return out;
                    }
                    i = i + 1;
                }
                assert(runs(list@).len() == list@.len());
                same_word
            },
            WordChange::Dropped(list) => {
                let s = string(word);
                let low = lower(s.as_str());
                let low = chars(low.as_str());
                let mut i: usize = 0;
                while i < list.len()
                    invariant
                        i <= list@.len(),
                        low@ == lowered(word@),
                        self@ == WordChangeView::Dropped(runs(list@)),
                        forall|j: int| 0 <= j < i ==> runs(list@)[j] != low@,
                    decreases list@.len() - i,
                {
                    assert(runs(list@)[i as int] == list@[i as int]@);
                    if same_chars(list[i].as_slice(), low.as_slice()) {
                        assert(runs(list@).contains(low@));
                        return Vec::new();
                    }
                    i = i + 1;
                }
                proof {
                    assert(runs(list@).len() == list@.len());
                    assert(!runs(list@).contains(low@));
                }
                same_word
            },
        }
    }
}

/// `stem` with each word changed, and what separates the words left as it
/// was.
pub fn words(stem: &[char], change: &WordChange) -> (r: Vec<char>)
    ensures
        r@ == words_of(Seq::empty(), stem@, change@),
{
    let mut out: Vec<char> = Vec::new();
    let mut word: Vec<char> = Vec::new();
    let mut i: usize = 0;
    proof {
        assert(stem@.skip(0) =~= stem@);
        assert(word@ =~= Seq::<char>::empty());
        assert(out@ + words_of(word@, stem@.skip(0), change@) =~= words_of(
            Seq::empty(),
            stem@,
            change@,
        ));
    }
    while i < stem.len()
        invariant
            i <= stem@.len(),
            out@ + words_of(word@, stem@.skip(i as int), change@) == words_of(
                Seq::empty(),
                stem@,
                change@,
            ),
        decreases stem@.len() - i,
    {
        let c = stem[i];
        let ghost s = stem@.skip(i as int);
        let ghost before = out@;
        let ghost had = word@;
        proof {
            assert(s[0] == c);
            assert(s.skip(1) =~= stem@.skip(i + 1));
        }
        if is_alphanumeric(c) || c == '\'' {
            word.push(c);
        } else {
            if word.len() > 0 {
                let changed = change.apply(word.as_slice());
                extend(&mut out, changed.as_slice());
            }
            word = Vec::new();
            out.push(c);
            proof {
                assert(word@ =~= Seq::<char>::empty());
                assert(out@ + words_of(word@, stem@.skip(i + 1), change@) =~= before + words_of(
                    had,
                    s,
                    change@,
                ));
            }
        }
        i = i + 1;
    }
    if word.len() > 0 {
        let changed = change.apply(word.as_slice());
        extend(&mut out, changed.as_slice());
    } else {
        assert(out@ + Seq::<char>::empty() =~= out@);
    }
    out
}

/// The items of `parts` that are not empty.
pub open spec fn nonempty_of(parts: Seq<Seq<char>>) -> Seq<Seq<char>>
    decreases parts.len(),
{
    if parts.len() == 0 {
        parts
    } else if parts.last().len() == 0 {
        nonempty_of(parts.drop_last())
    } else {
        nonempty_of(parts.drop_last()).push(parts.last())
    }
}

fn nonempty(parts: &Vec<Vec<char>>) -> (r: Vec<Vec<char>>)
    ensures
        runs(r@) == nonempty_of(runs(parts@)),
{
    let ghost all = runs(parts@);
    let mut out: Vec<Vec<char>> = Vec::new();
    let mut i: usize = 0;
    proof {
        assert(all.take(0) =~= Seq::<Seq<char>>::empty());
        assert(runs(out@) =~= nonempty_of(all.take(0)));
    }
    while i < parts.len()
        invariant
            i <= parts@.len(),
            all == runs(parts@),
            runs(out@) == nonempty_of(all.take(i as int)),
        decreases parts@.len() - i,
    {
        proof {
            assert(all[i as int] == parts@[i as int]@);
            assert(all.take(i + 1).drop_last() =~= all.take(i as int));
        }
        if parts[i].len() > 0 {
            let ghost before = runs(out@);
            let word = part(parts[i].as_slice(), 0, parts[i].len());
            assert(word@ =~= all[i as int]);
            let ghost w = word@;
            out.push(word);
            assert(runs(out@) =~= before.push(w));
        }
        i = i + 1;
    }
    assert(all.take(i as int) =~= all);
    out
}

/// `s` with a space in place of each white character.
pub open spec fn blanked(s: Seq<char>) -> Seq<char> {
    s.map_values(|c: char| if white(c) { ' ' } else { c })
}

/// The runs of `s` without white space.
pub open spec fn white_words_of(s: Seq<char>) -> Seq<Seq<char>> {
    nonempty_of(split_of(blanked(s), seq![' ']))
}

fn white_words(s: &str) -> (r: Vec<Vec<char>>)
    ensures
        runs(r@) == white_words_of(s@),
{
    let v = chars(s);
    let mut blank: Vec<char> = Vec::new();
    let mut i: usize = 0;
    while i < v.len()
        invariant
            i <= v@.len(),
            blank@ == blanked(v@.take(i as int)),
        decreases v@.len() - i,
    {
        if is_white(v[i]) {
            blank.push(' ');
        } else {
            blank.push(v[i]);
        }
        i = i + 1;
        assert(blank@ =~= blanked(v@.take(i as int)));
    }
    assert(v@.take(i as int) =~= v@);
    let seps: [char; 1] = [' '];
    assert(seps@ =~= seq![' ']);
    let parts = split_chars(blank.as_slice(), seps.as_slice());
    nonempty(&parts)
}

pub open spec fn recased(stem: Seq<char>, rule: CaseRule) -> Seq<char> {
    let changed = match rule.case {
        Case::Same => stem,
        Case::Lower => lowered(stem),
        Case::Upper => uppered(stem),
        Case::Title => words_of(Seq::empty(), stem, WordChangeView::Title),
        Case::Sentence => title_of(stem),
    };
    let exceptions = nonempty_of(split_of(rule.except@, seq![' ', ',']));
    if rule.case == Case::Same || exceptions.len() == 0 {
        changed
    } else {
        words_of(Seq::empty(), changed, WordChangeView::Spelled(exceptions))
    }
}

pub fn recase(stem: &[char], rule: &CaseRule) -> (r: Vec<char>)
    ensures
        r@ == recased(stem@, *rule),
{
    let text = string(stem);
    let changed = match rule.case {
        Case::Same => {
            return chars(text.as_str());
        },
        Case::Lower => chars(lower(text.as_str()).as_str()),
        Case::Upper => chars(upper(text.as_str()).as_str()),
        Case::Title => words(stem, &WordChange::Title),
        Case::Sentence => title_word(stem),
    };
    let except = chars(rule.except.as_str());
    let seps: [char; 2] = [' ', ','];
    assert(seps@ =~= seq![' ', ',']);
    let parts = split_chars(except.as_slice(), seps.as_slice());
    let exceptions = nonempty(&parts);
    assert(runs(exceptions@).len() == exceptions@.len());
    if exceptions.len() == 0 {
        return changed;
    }
    // Each word put back as the exception spells it.
    words(changed.as_slice(), &WordChange::Spelled(exceptions))
}

/// The characters of `s` that `keep` holds of.
pub open spec fn retained(s: Seq<char>, keep: spec_fn(char) -> bool) -> Seq<char>
    decreases s.len(),
{
    if s.len() == 0 {
        s
    } else if keep(s.last()) {
        retained(s.drop_last(), keep).push(s.last())
    } else {
        retained(s.drop_last(), keep)
    }
}

/// `s` without its `first` first and then its `last` last characters.
pub open spec fn without_ends(s: Seq<char>, first: nat, last: nat) -> Seq<char> {
    if first >= s.len() || first + last >= s.len() {
        Seq::empty()
    } else {
        s.subrange(first as int, s.len() - last)
    }
}

/// `s` without its characters `from` to `to`, counting from 1.
pub open spec fn without_middle(s: Seq<char>, from: nat, to: nat) -> Seq<char> {
    if from == 0 || to < from || from > s.len() {
        s
    } else if to >= s.len() {
        s.take(from - 1)
    } else {
        s.take(from - 1) + s.skip(to as int)
    }
}

/// The letters with an accent, and beside each the letter without it.
pub open spec fn accented() -> Seq<char> {
    "ÀÁÂÃÄÅàáâãäåĀāĂăĄąÇçĆćĈĉĊċČčĎďĐđÈÉÊËèéêëĒēĔĕĖėĘęĚěĜĝĞğĠġĢģĤĥĦħÌÍÎÏìíîïĨĩĪīĬĭĮįİıĴĵĶķĹĺĻļĽľĿŀŁłÑñŃńŅņŇňÒÓÔÕÖØòóôõöøŌōŎŏŐőŔŕŖŗŘřŚśŜŝŞşŠšŢţŤťŦŧÙÚÛÜùúûüŨũŪūŬŭŮůŰűŲųŴŵÝýÿŶŷŸŹźŻżŽž"@
}

pub open spec fn plain() -> Seq<char> {
    "AAAAAAaaaaaaAaAaAaCcCcCcCcCcDdDdEEEEeeeeEeEeEeEeEeGgGgGgGgHhHhIIIIiiiiIiIiIiIiIiJjKkLlLlLlLlLlNnNnNnNnOOOOOOooooooOoOoOoRrRrRrSsSsSsSsTtTtTtUUUUuuuuUuUuUuUuUuUuWwYyyYyYZzZzZz"@
}

pub open spec fn is_char(c: char) -> spec_fn(char) -> bool {
    |f: char| f == c
}

/// The letter without its accent, for the Latin letters with one.
pub open spec fn unaccented_of(c: char) -> char {
    let at = first_index(accented(), is_char(c), 0);
    if at < accented().len() && at < plain().len() {
        plain()[at]
    } else {
        c
    }
}

/// `s` with each run of spaces made one.
pub open spec fn single_spaced(s: Seq<char>) -> Seq<char>
    decreases s.len(),
{
    if s.len() == 0 {
        s
    } else if s.last() == ' ' && s.len() > 1 && s[s.len() - 2] == ' ' {
        single_spaced(s.drop_last())
    } else {
        single_spaced(s.drop_last()).push(s.last())
    }
}

/// `s` from its first character that is not a dot.
pub open spec fn without_lead_dots(s: Seq<char>) -> Seq<char>
    decreases s.len(),
{
    if s.len() > 0 && s[0] == '.' {
        without_lead_dots(s.skip(1))
    } else {
        s
    }
}

/// `s` cropped at the first place where `crop_at` stands in it.
pub open spec fn cropped(s: Seq<char>, crop: Crop, crop_at: Seq<char>) -> Seq<char> {
    if crop == Crop::Off || crop_at.len() == 0 {
        s
    } else {
        match regex_found(any_case(crop_at), s) {
            None => s,
            Some((start, end)) => match crop {
                Crop::Before => decode_utf8(
                    encode_utf8(s).subrange(start as int, encode_utf8(s).len() as int),
                ),
                _ => decode_utf8(encode_utf8(s).subrange(0, end as int)),
            },
        }
    }
}

/// The words that are to be dropped, in lower case.
pub open spec fn dropped_words(words: Seq<char>) -> Seq<Seq<char>> {
    white_words_of(words).map_values(|w: Seq<char>| lowered(w))
}

pub open spec fn without_words(s: Seq<char>, words: Seq<char>) -> Seq<char> {
    if trim_of(words).len() == 0 {
        s
    } else {
        words_of(Seq::empty(), s, WordChangeView::Dropped(dropped_words(words)))
    }
}

/// What is kept, of the characters that a rule may take out.
pub open spec fn not_in(chars: Seq<char>) -> spec_fn(char) -> bool {
    |c: char| !chars.contains(c)
}

pub open spec fn not_digit() -> spec_fn(char) -> bool {
    |c: char| !digit(c)
}

pub open spec fn not_symbol() -> spec_fn(char) -> bool {
    |c: char| alphanumeric(c) || c == ' ' || c == '-' || c == '_'
}

pub open spec fn not_high() -> spec_fn(char) -> bool {
    |c: char| c as u32 <= 0x7F
}

/// `stem` with what the rule takes out gone, in the rule's order.
pub open spec fn removed(stem: Seq<char>, rule: RemoveRule) -> Seq<char> {
    let s = without_middle(
        without_ends(stem, rule.first as nat, rule.last as nat),
        rule.from as nat,
        rule.to as nat,
    );
    let s = if rule.chars@.len() == 0 {
        s
    } else {
        retained(s, not_in(rule.chars@))
    };
    let s = without_words(s, rule.words@);
    let s = cropped(s, rule.crop, rule.crop_at@);
    let s = if rule.digits {
        retained(s, not_digit())
    } else {
        s
    };
    let s = if rule.accents {
        s.map_values(|c: char| unaccented_of(c))
    } else {
        s
    };
    let s = if rule.symbols {
        retained(s, not_symbol())
    } else {
        s
    };
    let s = if rule.high {
        retained(s, not_high())
    } else {
        s
    };
    let s = if rule.double_spaces {
        single_spaced(s)
    } else {
        s
    };
    let s = if rule.trim {
        trim_of(s)
    } else {
        s
    };
    if rule.lead_dots {
        without_lead_dots(s)
    } else {
        s
    }
}

/// Which characters a rule keeps.
enum Keep {
    NotIn(Vec<char>),
    NotDigit,
    NotSymbol,
    NotHigh,
}

impl Keep {
    spec fn keeps(self) -> spec_fn(char) -> bool {
        match self {
            Keep::NotIn(barred) => not_in(barred@),
            Keep::NotDigit => not_digit(),
            Keep::NotSymbol => not_symbol(),
            Keep::NotHigh => not_high(),
        }
    }

    fn keep(&self, c: char) -> (r: bool)
        ensures
            r == self.keeps()(c),
    {
        match self {
            Keep::NotIn(barred) => !holds(barred.as_slice(), c),
            Keep::NotDigit => !is_digit(c),
            Keep::NotSymbol => is_alphanumeric(c) || c == ' ' || c == '-' || c == '_',
            Keep::NotHigh => c as u32 <= 0x7F,
        }
    }
}

fn retain(v: &[char], keep: Keep) -> (r: Vec<char>)
    ensures
        r@ == retained(v@, keep.keeps()),
{
    let mut out: Vec<char> = Vec::new();
    let mut i: usize = 0;
    assert(v@.take(0) =~= Seq::<char>::empty());
    assert(out@ =~= retained(v@.take(0), keep.keeps()));
    while i < v.len()
        invariant
            i <= v@.len(),
            out@ == retained(v@.take(i as int), keep.keeps()),
        decreases v@.len() - i,
    {
        assert(v@.take(i + 1).drop_last() =~= v@.take(i as int));
        if keep.keep(v[i]) {
            out.push(v[i]);
        }
        i = i + 1;
    }
    assert(v@.take(i as int) =~= v@);
    out
}

/// The letter without its accent, for the Latin letters with one.
pub fn unaccented(c: char) -> (r: char)
    ensures
        r == unaccented_of(c),
{
    let from = chars(
        "ÀÁÂÃÄÅàáâãäåĀāĂăĄąÇçĆćĈĉĊċČčĎďĐđÈÉÊËèéêëĒēĔĕĖėĘęĚěĜĝĞğĠġĢģĤĥĦħÌÍÎÏìíîïĨĩĪīĬĭĮįİıĴĵĶķĹĺĻļĽľĿŀŁłÑñŃńŅņŇňÒÓÔÕÖØòóôõöøŌōŎŏŐőŔŕŖŗŘřŚśŜŝŞşŠšŢţŤťŦŧÙÚÛÜùúûüŨũŪūŬŭŮůŰűŲųŴŵÝýÿŶŷŸŹźŻżŽž",
    );
    let to = chars(
        "AAAAAAaaaaaaAaAaAaCcCcCcCcCcDdDdEEEEeeeeEeEeEeEeEeGgGgGgGgHhHhIIIIiiiiIiIiIiIiIiJjKkLlLlLlLlLlNnNnNnNnOOOOOOooooooOoOoOoRrRrRrSsSsSsSsTtTtTtUUUUuuuuUuUuUuUuUuUuWwYyyYyYZzZzZz",
    );
    let ghost p = is_char(c);
    let mut i: usize = 0;
    while i < from.len()
        invariant
            i <= from@.len(),
            from@ == accented(),
            to@ == plain(),
            p == is_char(c),
            first_index(accented(), p, 0) == first_index(accented(), p, i as int),
        decreases from@.len() - i,
    {
        if from[i] == c {
            if i < to.len() {
                return to[i];
            }
            return c;
        }
        i = i + 1;
    }
    c
}

fn unaccent(v: &[char]) -> (r: Vec<char>)
    ensures
        r@ == v@.map_values(|c: char| unaccented_of(c)),
{
    let mut out: Vec<char> = Vec::new();
    let mut i: usize = 0;
    while i < v.len()
        invariant
            i <= v@.len(),
            out@ == v@.take(i as int).map_values(|c: char| unaccented_of(c)),
        decreases v@.len() - i,
    {
        out.push(unaccented(v[i]));
        i = i + 1;
        assert(out@ =~= v@.take(i as int).map_values(|c: char| unaccented_of(c)));
    }
    assert(v@.take(i as int) =~= v@);
    out
}

fn single_space(v: &[char]) -> (r: Vec<char>)
    ensures
        r@ == single_spaced(v@),
{
    let mut out: Vec<char> = Vec::new();
    let mut i: usize = 0;
    assert(v@.take(0) =~= Seq::<char>::empty());
    while i < v.len()
        invariant
            i <= v@.len(),
            out@ == single_spaced(v@.take(i as int)),
        decreases v@.len() - i,
    {
        assert(v@.take(i + 1).drop_last() =~= v@.take(i as int));
        if !(v[i] == ' ' && i > 0 && v[i - 1] == ' ') {
            out.push(v[i]);
        }
        i = i + 1;
    }
    assert(v@.take(i as int) =~= v@);
    out
}

fn drop_lead_dots(v: &[char]) -> (r: Vec<char>)
    ensures
        r@ == without_lead_dots(v@),
{
    let mut i: usize = 0;
    assert(v@.skip(0) =~= v@);
    while i < v.len() && v[i] == '.'
        invariant
            i <= v@.len(),
            without_lead_dots(v@) == without_lead_dots(v@.skip(i as int)),
        decreases v@.len() - i,
    {
        i = i + 1;
        assert(v@.skip(i - 1).skip(1) =~= v@.skip(i as int));
    }
    assert(v@.subrange(i as int, v@.len() as int) =~= v@.skip(i as int));
    part(v, i, v.len())
}

fn crop_text(v: &[char], crop: Crop, crop_at: &str) -> (r: Vec<char>)
    ensures
        r@ == cropped(v@, crop, crop_at@),
{
    let text = string(v);
    if crop == Crop::Off || crop_at.is_empty() {
        return chars(text.as_str());
    }
    let pattern = any_case_pattern(crop_at);
    match find_match(pattern.as_str(), text.as_str()) {
        None => chars(text.as_str()),
        Some((start, end)) => {
            proof {
                broadcast use vstd::utf8::encode_utf8_decode_utf8;

            }
            if crop == Crop::Before {
                let (_, rest) = text.as_str().split_at(start);
                chars(rest)
            } else {
                let (head, _) = text.as_str().split_at(end);
                chars(head)
            }
        },
    }
}

fn drop_words(v: &[char], gone: &str) -> (r: Vec<char>)
    ensures
        r@ == without_words(v@, gone@),
{
    let same_v = part(v, 0, v.len());
    assert(same_v@ =~= v@);
    let spelled = chars(gone);
    let trimmed = trim_chars(spelled.as_slice());
    if trimmed.len() == 0 {
        return same_v;
    }
    let list = white_words(gone);
    let ghost all = runs(list@);
    let mut low: Vec<Vec<char>> = Vec::new();
    let mut i: usize = 0;
    while i < list.len()
        invariant
            i <= list@.len(),
            all == runs(list@),
            runs(low@) == all.take(i as int).map_values(|w: Seq<char>| lowered(w)),
        decreases list@.len() - i,
    {
        let ghost before = runs(low@);
        assert(all[i as int] == list@[i as int]@);
        let w = string(list[i].as_slice());
        let l = chars(lower(w.as_str()).as_str());
        let ghost added = l@;
        low.push(l);
        i = i + 1;
        assert(runs(low@) =~= before.push(added));
        assert(runs(low@) =~= all.take(i as int).map_values(|w: Seq<char>| lowered(w)));
    }
    assert(all.take(i as int) =~= all);
    words(v, &WordChange::Dropped(low))
}

fn drop_ends(v: &[char], first: usize, last: usize) -> (r: Vec<char>)
    ensures
        r@ == without_ends(v@, first as nat, last as nat),
{
    if first >= v.len() || last >= v.len() - first {
        Vec::new()
    } else {
        part(v, first, v.len() - last)
    }
}

fn drop_middle(v: &[char], from: usize, to: usize) -> (r: Vec<char>)
    ensures
        r@ == without_middle(v@, from as nat, to as nat),
{
    if from == 0 || to < from || from > v.len() {
        let out = part(v, 0, v.len());
        assert(out@ =~= v@);
        out
    } else {
        let mut out = part(v, 0, from - 1);
        assert(out@ =~= v@.take(from - 1));
        if to < v.len() {
            let rest = part(v, to, v.len());
            assert(rest@ =~= v@.skip(to as int));
            extend(&mut out, rest.as_slice());
        }
        out
    }
}

pub fn remove(stem: &[char], rule: &RemoveRule) -> (r: Vec<char>)
    ensures
        r@ == removed(stem@, *rule),
{
    let s = drop_ends(stem, rule.first, rule.last);
    let s = drop_middle(s.as_slice(), rule.from, rule.to);
    let s = if rule.chars.as_str().is_empty() {
        s
    } else {
        let barred = chars(rule.chars.as_str());
        retain(s.as_slice(), Keep::NotIn(barred))
    };
    let s = drop_words(s.as_slice(), rule.words.as_str());
    let s = crop_text(s.as_slice(), rule.crop, rule.crop_at.as_str());
    let s = if rule.digits {
        retain(s.as_slice(), Keep::NotDigit)
    } else {
        s
    };
    let s = if rule.accents {
        unaccent(s.as_slice())
    } else {
        s
    };
    let s = if rule.symbols {
        retain(s.as_slice(), Keep::NotSymbol)
    } else {
        s
    };
    let s = if rule.high {
        retain(s.as_slice(), Keep::NotHigh)
    } else {
        s
    };
    let s = if rule.double_spaces {
        single_space(s.as_slice())
    } else {
        s
    };
    let s = if rule.trim {
        trim_chars(s.as_slice())
    } else {
        s
    };
    if rule.lead_dots {
        drop_lead_dots(s.as_slice())
    } else {
        s
    }
}

/// `text` put before the character at `at`, counting from 1, or at the end
/// of a name shorter than that.
pub open spec fn inserted(stem: Seq<char>, text: Seq<char>, at: nat) -> Seq<char> {
    let k = if at == 0 {
        0
    } else if at - 1 > stem.len() {
        stem.len() as int
    } else {
        at - 1
    };
    stem.take(k) + text + stem.skip(k)
}

pub fn insert(stem: &[char], text: &[char], at: usize) -> (r: Vec<char>)
    ensures
        r@ == inserted(stem@, text@, at as nat),
{
    let k: usize = if at == 0 {
        0
    } else if at - 1 > stem.len() {
        stem.len()
    } else {
        at - 1
    };
    let mut out = part(stem, 0, k);
    assert(out@ =~= stem@.take(k as int));
    extend(&mut out, text);
    let rest = part(stem, k, stem.len());
    assert(rest@ =~= stem@.skip(k as int));
    extend(&mut out, rest.as_slice());
    out
}

/// `stem` with some characters from one end copied or moved elsewhere.
pub open spec fn shifted(stem: Seq<char>, rule: MoveRule) -> Seq<char> {
    let n = if rule.count < stem.len() {
        rule.count as int
    } else {
        stem.len() as int
    };
    let head = rule.mode == MoveMode::CopyFirst || rule.mode == MoveMode::MoveFirst;
    let piece = if head {
        stem.take(n)
    } else {
        stem.skip(stem.len() - n)
    };
    let rest = match rule.mode {
        MoveMode::MoveFirst => stem.skip(n),
        MoveMode::MoveLast => stem.take(stem.len() - n),
        _ => stem,
    };
    let sep = rule.separator@;
    if rule.mode == MoveMode::Off || rule.count == 0 {
        stem
    } else {
        match rule.to {
            Place::Start => piece + sep + rest,
            Place::End => rest + sep + piece,
            Place::At => inserted(rest, sep + piece + sep, rule.at as nat),
        }
    }
}

fn three(a: &[char], b: &[char], c: &[char]) -> (r: Vec<char>)
    ensures
        r@ == a@ + b@ + c@,
{
    let mut out = part(a, 0, a.len());
    assert(out@ =~= a@);
    extend(&mut out, b);
    extend(&mut out, c);
    out
}

pub fn shift(stem: &[char], rule: &MoveRule) -> (r: Vec<char>)
    ensures
        r@ == shifted(stem@, *rule),
{
    let len: usize = stem.len();
    let whole = part(stem, 0, len);
    assert(whole@ =~= stem@);
    if rule.mode == MoveMode::Off || rule.count == 0 {
        return whole;
    }
    let n: usize = if rule.count < len {
        rule.count
    } else {
        len
    };
    let head = rule.mode == MoveMode::CopyFirst || rule.mode == MoveMode::MoveFirst;
    let piece = if head {
        part(stem, 0, n)
    } else {
        part(stem, len - n, len)
    };
    let rest = match rule.mode {
        MoveMode::MoveFirst => part(stem, n, len),
        MoveMode::MoveLast => part(stem, 0, len - n),
        _ => whole,
    };
    proof {
        assert(stem@.subrange(0, n as int) =~= stem@.take(n as int));
        assert(stem@.subrange(len - n, len as int) =~= stem@.skip(len - n));
        assert(stem@.subrange(n as int, len as int) =~= stem@.skip(n as int));
        assert(stem@.subrange(0, len - n) =~= stem@.take(len - n));
    }
    let sep = chars(rule.separator.as_str());
    match rule.to {
        Place::Start => three(piece.as_slice(), sep.as_slice(), rest.as_slice()),
        Place::End => three(rest.as_slice(), sep.as_slice(), piece.as_slice()),
        Place::At => {
            let text = three(sep.as_slice(), piece.as_slice(), sep.as_slice());
            insert(rest.as_slice(), text.as_slice(), rule.at)
        },
    }
}

/// `s` with a space before each capital that follows a small letter or a
/// digit.
pub open spec fn spaced_words(s: Seq<char>) -> Seq<char>
    decreases s.len(),
{
    if s.len() == 0 {
        s
    } else {
        let n = s.len();
        let so_far = spaced_words(s.drop_last());
        if n > 1 && uppercase(s.last()) && (lowercase(s[n - 2]) || digit(s[n - 2])) {
            so_far.push(' ').push(s.last())
        } else {
            so_far.push(s.last())
        }
    }
}

pub open spec fn added(stem: Seq<char>, rule: AddRule) -> Seq<char> {
    let s = if rule.word_space {
        spaced_words(stem)
    } else {
        stem
    };
    let s = if rule.at > 0 && rule.insert@.len() > 0 {
        inserted(s, rule.insert@, rule.at as nat)
    } else {
        s
    };
    rule.prefix@ + s + rule.suffix@
}

fn space_words(v: &[char]) -> (r: Vec<char>)
    ensures
        r@ == spaced_words(v@),
{
    let mut out: Vec<char> = Vec::new();
    let mut i: usize = 0;
    assert(v@.take(0) =~= Seq::<char>::empty());
    while i < v.len()
        invariant
            i <= v@.len(),
            out@ == spaced_words(v@.take(i as int)),
        decreases v@.len() - i,
    {
        assert(v@.take(i + 1).drop_last() =~= v@.take(i as int));
        if i > 0 && is_uppercase(v[i]) && (is_lowercase(v[i - 1]) || is_digit(v[i - 1])) {
            out.push(' ');
        }
        out.push(v[i]);
        i = i + 1;
    }
    assert(v@.take(i as int) =~= v@);
    out
}

/// The text that `rule` adds, put on `stem`.
pub fn put_on(stem: &[char], rule: &AddRule) -> (r: Vec<char>)
    ensures
        r@ == added(stem@, *rule),
{
    let s = if rule.word_space {
        space_words(stem)
    } else {
        let same_stem = part(stem, 0, stem.len());
        assert(same_stem@ =~= stem@);
        same_stem
    };
    let s = if rule.at > 0 && !rule.insert.as_str().is_empty() {
        let text = chars(rule.insert.as_str());
        insert(s.as_slice(), text.as_slice(), rule.at)
    } else {
        s
    };
    let prefix = chars(rule.prefix.as_str());
    let suffix = chars(rule.suffix.as_str());
    three(prefix.as_slice(), s.as_slice(), suffix.as_slice())
}

/// `text` joined on at `side` of `stem`, with `sep` between unless either is
/// empty.
pub open spec fn beside_of(
    stem: Seq<char>,
    text: Seq<char>,
    sep: Seq<char>,
    side: Side,
) -> Seq<char> {
    if text.len() == 0 {
        stem
    } else if stem.len() == 0 {
        text
    } else {
        match side {
            Side::Off => stem,
            Side::Prefix => text + sep + stem,
            Side::Suffix => stem + sep + text,
        }
    }
}

pub fn beside(stem: &[char], text: &[char], sep: &str, side: Side) -> (r: Vec<char>)
    ensures
        r@ == beside_of(stem@, text@, sep@, side),
{
    let same_stem = part(stem, 0, stem.len());
    assert(same_stem@ =~= stem@);
    if text.len() == 0 {
        return same_stem;
    }
    if stem.len() == 0 {
        let same_text = part(text, 0, text.len());
        assert(same_text@ =~= text@);
        return same_text;
    }
    let sep = chars(sep);
    match side {
        Side::Off => same_stem,
        Side::Prefix => three(text, sep.as_slice(), stem),
        Side::Suffix => three(stem, sep.as_slice(), text),
    }
}

/// 1 is the first letter, 26 the last, 27 the first twice, as spreadsheet
/// columns count; 0 is empty.
pub open spec fn letters_of(n: nat, first: char) -> Seq<char>
    decreases n,
{
    if n == 0 {
        Seq::empty()
    } else {
        letters_of(((n - 1) / 26) as nat, first).push(
            (first as int + (n - 1) % 26) as char,
        )
    }
}

pub fn letters(n: u64, upper_case: bool) -> (r: Vec<char>)
    ensures
        r@ == letters_of(
            n as nat,
            if upper_case {
                'A'
            } else {
                'a'
            },
        ),
    decreases n,
{
    if n == 0 {
        return Vec::new();
    }
    let mut out = letters((n - 1) / 26, upper_case);
    let first: u8 = if upper_case {
        65
    } else {
        97
    };
    out.push((first + ((n - 1) % 26) as u8) as char);
    out
}

/// `n` in Roman numerals.
pub open spec fn roman_of(n: nat) -> Seq<char>
    decreases n,
{
    if n >= 1000 {
        seq!['M'] + roman_of((n - 1000) as nat)
    } else if n >= 900 {
        seq!['C', 'M'] + roman_of((n - 900) as nat)
    } else if n >= 500 {
        seq!['D'] + roman_of((n - 500) as nat)
    } else if n >= 400 {
        seq!['C', 'D'] + roman_of((n - 400) as nat)
    } else if n >= 100 {
        seq!['C'] + roman_of((n - 100) as nat)
    } else if n >= 90 {
        seq!['X', 'C'] + roman_of((n - 90) as nat)
    } else if n >= 50 {
        seq!['L'] + roman_of((n - 50) as nat)
    } else if n >= 40 {
        seq!['X', 'L'] + roman_of((n - 40) as nat)
    } else if n >= 10 {
        seq!['X'] + roman_of((n - 10) as nat)
    } else if n >= 9 {
        seq!['I', 'X'] + roman_of((n - 9) as nat)
    } else if n >= 5 {
        seq!['V'] + roman_of((n - 5) as nat)
    } else if n >= 4 {
        seq!['I', 'V'] + roman_of((n - 4) as nat)
    } else if n >= 1 {
        seq!['I'] + roman_of((n - 1) as nat)
    } else {
        Seq::empty()
    }
}

pub fn roman(n: u64) -> (r: Vec<char>)
    ensures
        r@ == roman_of(n as nat),
{
    let mut out: Vec<char> = Vec::new();
    let mut left: u64 = n;
    assert(out@ + roman_of(left as nat) =~= roman_of(n as nat));
    while left > 0
        invariant
            out@ + roman_of(left as nat) == roman_of(n as nat),
        decreases left,
    {
        let ghost before = out@;
        let ghost had = left;
        let (value, one, two): (u64, char, Option<char>) = if left >= 1000 {
            (1000, 'M', None)
        } else if left >= 900 {
            (900, 'C', Some('M'))
        } else if left >= 500 {
            (500, 'D', None)
        } else if left >= 400 {
            (400, 'C', Some('D'))
        } else if left >= 100 {
            (100, 'C', None)
        } else if left >= 90 {
            (90, 'X', Some('C'))
        } else if left >= 50 {
            (50, 'L', None)
        } else if left >= 40 {
            (40, 'X', Some('L'))
        } else if left >= 10 {
            (10, 'X', None)
        } else if left >= 9 {
            (9, 'I', Some('X'))
        } else if left >= 5 {
            (5, 'V', None)
        } else if left >= 4 {
            (4, 'I', Some('V'))
        } else {
            (1, 'I', None)
        };
        out.push(one);
        match two {
            Some(c) => {
                out.push(c);
            },
            None => {},
        }
        left = left - value;
        assert(out@ + roman_of(left as nat) =~= before + roman_of(had as nat));
    }
    assert(out@ + roman_of(0) =~= out@);
    out
}

/// `number` as the rule writes it.
pub open spec fn number_text_of(number: i64, rule: NumberRule) -> Seq<char> {
    let n = (if number < 0 {
        -number
    } else {
        number as int
    }) as nat;
    let digits = match rule.kind {
        NumberKind::Decimal => zero_padded(digits_of(n), rule.pad as nat),
        NumberKind::Lower => letters_of(n, 'a'),
        NumberKind::Upper => letters_of(n, 'A'),
        NumberKind::Roman => roman_of(n),
    };
    if number < 0 {
        seq!['-'] + digits
    } else {
        digits
    }
}

fn magnitude(number: i64) -> (r: u64)
    ensures
        r == if number < 0 {
            -number
        } else {
            number as int
        },
{
    if number >= 0 {
        number as u64
    } else {
        (-(number + 1)) as u64 + 1
    }
}

pub fn number_text(number: i64, rule: &NumberRule) -> (r: Vec<char>)
    ensures
        r@ == number_text_of(number, *rule),
{
    let n: u64 = magnitude(number);
    let mut out: Vec<char> = Vec::new();
    if number < 0 {
        out.push('-');
    }
    let ghost sign = out@;
    match rule.kind {
        NumberKind::Decimal => {
            let digits = decimal(n);
            let mut k: usize = digits.len();
            let ghost d = digits@;
            let ghost pad = rule.pad as int;
            assert(Seq::new(0, |i: int| '0') =~= Seq::<char>::empty());
            assert(out@ =~= sign + Seq::new((k - d.len()) as nat, |i: int| '0'));
            while k < rule.pad
                invariant
                    d.len() <= k,
                    k <= rule.pad || k == d.len(),
                    out@ == sign + Seq::new((k - d.len()) as nat, |i: int| '0'),
                decreases rule.pad - k,
            {
                out.push('0');
                k = k + 1;
                assert(out@ =~= sign + Seq::new((k - d.len()) as nat, |i: int| '0'));
            }
            extend(&mut out, digits.as_slice());
            assert(out@ =~= sign + zero_padded(d, rule.pad as nat));
        },
        NumberKind::Lower => {
            let digits = letters(n, false);
            extend(&mut out, digits.as_slice());
        },
        NumberKind::Upper => {
            let digits = letters(n, true);
            extend(&mut out, digits.as_slice());
        },
        NumberKind::Roman => {
            let digits = roman(n);
            extend(&mut out, digits.as_slice());
        },
    }
    assert(out@ =~= number_text_of(number, *rule));
    out
}

/// Runs the numbering rule's counter along the chosen files.
pub struct Counter {
    next: i64,
    start: i64,
    step: i64,
    restart_after: usize,
    per_folder: bool,
    last_head: Option<Vec<char>>,
    last_folder: Option<String>,
}

#[verifier::ext_equal]
pub struct CounterView {
    pub next: i64,
    pub start: i64,
    pub step: i64,
    pub restart_after: usize,
    pub per_folder: bool,
    pub last_head: Option<Seq<char>>,
    pub last_folder: Option<Seq<char>>,
}

impl View for Counter {
    type V = CounterView;

    closed spec fn view(&self) -> CounterView {
        CounterView {
            next: self.next,
            start: self.start,
            step: self.step,
            restart_after: self.restart_after,
            per_folder: self.per_folder,
            last_head: match self.last_head {
                Some(h) => Some(h@),
                None => None,
            },
            last_folder: crate::wav::text_view(self.last_folder),
        }
    }
}

/// The counter before the first file.
pub open spec fn counter_start(rule: NumberRule) -> CounterView {
    CounterView {
        next: rule.start,
        start: rule.start,
        step: rule.step,
        restart_after: rule.restart_after,
        per_folder: rule.per_folder,
        last_head: None,
        last_folder: None,
    }
}

impl CounterView {
    /// The characters that the counter watches for a change.
    pub open spec fn head(self, name: Seq<char>) -> Seq<char> {
        if self.restart_after < name.len() {
            name.take(self.restart_after as int)
        } else {
            name
        }
    }

    /// The number for a file whose name, so far, is `name`: the counter
    /// starts again where the watched characters or the folder changed.
    pub open spec fn number(self, name: Seq<char>, folder: Option<Seq<char>>) -> i64 {
        let new_head = self.restart_after > 0 && self.last_head is Some && self.last_head->0
            != self.head(name);
        let new_folder = self.per_folder && self.last_folder is Some && self.last_folder != folder;
        if new_head || new_folder {
            self.start
        } else {
            self.next
        }
    }

    /// The counter after that file.
    pub open spec fn taken(self, name: Seq<char>, folder: Option<Seq<char>>) -> CounterView {
        CounterView {
            next: (self.number(name, folder) + self.step) as i64,
            last_head: if self.restart_after > 0 {
                Some(self.head(name))
            } else {
                self.last_head
            },
            last_folder: if self.per_folder {
                folder
            } else {
                self.last_folder
            },
            ..self
        }
    }

    /// Whether the number behind that file's can still be counted.
    pub open spec fn can_take(self, name: Seq<char>, folder: Option<Seq<char>>) -> bool {
        i64::MIN <= self.number(name, folder) + self.step <= i64::MAX
    }
}

impl Counter {
    pub fn new(rule: &NumberRule) -> (r: Counter)
        ensures
            r@ == counter_start(*rule),
    {
        Counter {
            next: rule.start,
            start: rule.start,
            step: rule.step,
            restart_after: rule.restart_after,
            per_folder: rule.per_folder,
            last_head: None,
            last_folder: None,
        }
    }

    /// The number for a file whose name, so far, is `name`, before it is
    /// taken.
    fn coming(&self, name: &[char], folder: &Option<String>) -> (r: i64)
        ensures
            r == self@.number(name@, crate::wav::text_view(*folder)),
    {
        if self.restart_after > 0 {
            if let Some(last) = &self.last_head {
                let head = self.watched(name);
                if !same_chars(last.as_slice(), head.as_slice()) {
                    return self.start;
                }
            }
        }
        if self.per_folder {
            match (&self.last_folder, folder) {
                (Some(last), Some(now)) => {
                    if !same(last.as_str(), now.as_str()) {
                        return self.start;
                    }
                },
                (Some(_), None) => {
                    return self.start;
                },
                _ => {},
            }
        }
        self.next
    }

    fn watched(&self, name: &[char]) -> (r: Vec<char>)
        ensures
            r@ == self@.head(name@),
    {
        let n: usize = if self.restart_after < name.len() {
            self.restart_after
        } else {
            name.len()
        };
        let head = part(name, 0, n);
        assert(head@ =~= self@.head(name@));
        head
    }

    /// Whether the number behind that of a file whose name, so far, is
    /// `name` can still be counted.
    pub fn fits(&self, name: &[char], folder: &Option<String>) -> (r: bool)
        ensures
            r == self@.can_take(name@, crate::wav::text_view(*folder)),
    {
        self.coming(name, folder).checked_add(self.step).is_some()
    }

    /// The number for a file whose name, so far, is `name`.
    pub fn take(&mut self, name: &[char], folder: Option<String>) -> (r: i64)
        requires
            old(self)@.can_take(name@, crate::wav::text_view(folder)),
        ensures
            r == old(self)@.number(name@, crate::wav::text_view(folder)),
            final(self)@ == old(self)@.taken(name@, crate::wav::text_view(folder)),
    {
        let ghost before = self@;
        let number: i64 = self.coming(name, &folder);
        if self.restart_after > 0 {
            self.last_head = Some(self.watched(name));
        }
        if self.per_folder {
            self.last_folder = folder;
        }
        self.next = number + self.step;
        assert(self@ =~= before.taken(name@, crate::wav::text_view(folder)));
        number
    }
}

/// The counter after the first `k` of files with these names and folders.
pub open spec fn counter_after(
    rule: NumberRule,
    names: Seq<Seq<char>>,
    folders: Seq<Option<Seq<char>>>,
    k: int,
) -> CounterView
    decreases k,
{
    if k <= 0 {
        counter_start(rule)
    } else {
        counter_after(rule, names, folders, k - 1).taken(names[k - 1], folders[k - 1])
    }
}

/// Whether the counter starts at the `k`th file: at the first, where the
/// watched characters change, or where the folder does.
pub open spec fn restarts(
    rule: NumberRule,
    names: Seq<Seq<char>>,
    folders: Seq<Option<Seq<char>>>,
    k: int,
) -> bool {
    let watch = counter_start(rule);
    ||| k == 0
    ||| rule.restart_after > 0 && watch.head(names[k]) != watch.head(names[k - 1])
    ||| rule.per_folder && folders[k - 1] is Some && folders[k] != folders[k - 1]
}

proof fn lemma_counter_after(
    rule: NumberRule,
    names: Seq<Seq<char>>,
    folders: Seq<Option<Seq<char>>>,
    k: int,
)
    requires
        0 <= k,
    ensures
        ({
            let c = counter_after(rule, names, folders, k);
            &&& c.start == rule.start
            &&& c.step == rule.step
            &&& c.restart_after == rule.restart_after
            &&& c.per_folder == rule.per_folder
            &&& c.last_head == if k > 0 && rule.restart_after > 0 {
                Some(counter_start(rule).head(names[k - 1]))
            } else {
                None
            }
            &&& c.last_folder == if k > 0 && rule.per_folder {
                folders[k - 1]
            } else {
                None
            }
        }),
    decreases k,
{
    if k > 0 {
        lemma_counter_after(rule, names, folders, k - 1);
    }
}

/// The `k`th file's number is as many steps from the rule's start as files
/// have gone by since the counter last started, at the `r`th.
pub proof fn numbers_count_on_from_the_last_restart(
    rule: NumberRule,
    names: Seq<Seq<char>>,
    folders: Seq<Option<Seq<char>>>,
    k: int,
    r: int,
)
    requires
        0 <= r <= k < names.len(),
        names.len() == folders.len(),
        forall|i: int|
            0 <= i < k ==> (#[trigger] counter_after(rule, names, folders, i)).can_take(
                names[i],
                folders[i],
            ),
        restarts(rule, names, folders, r),
        forall|i: int| r < i <= k ==> !#[trigger] restarts(rule, names, folders, i),
    ensures
        counter_after(rule, names, folders, k).number(names[k], folders[k]) == rule.start
            + rule.step * (k - r),
    decreases k,
{
    lemma_counter_after(rule, names, folders, k);
    if r < k {
        assert(!restarts(rule, names, folders, k));
        numbers_count_on_from_the_last_restart(rule, names, folders, k - 1, r);
        assert(counter_after(rule, names, folders, k - 1).can_take(names[k - 1], folders[k - 1]));
        lemma_counter_after(rule, names, folders, k - 1);
        assert(rule.step * (k - r) == rule.step * (k - 1 - r) + rule.step) by (nonlinear_arith);
    } else {
        assert(rule.step * (k - r) == 0) by (nonlinear_arith)
            requires
                k == r,
        ;
    }
}

/// The text after every match of the rule's expression is replaced.
pub open spec fn regexed(text: Seq<char>, rule: RegexRule) -> Seq<char> {
    match regex_replaced(rule.find@, text, groups_of(rule.replace@)) {
        Some(s) => s,
        None => text,
    }
}

/// A name's stem and extension after the first panel.
pub open spec fn parted(name: Seq<char>, rule: RegexRule) -> (Seq<char>, Seq<char>) {
    let (stem, ext) = split_name(name);
    if rule.find@.len() == 0 {
        (stem, ext)
    } else if rule.extension {
        split_name(regexed(join_name(stem, ext), rule))
    } else {
        (regexed(stem, rule), ext)
    }
}

pub open spec fn renamed_stem(stem: Seq<char>, rule: NameRule) -> Seq<char> {
    match rule.mode {
        NameMode::Keep => stem,
        NameMode::Remove => Seq::empty(),
        NameMode::Fixed => rule.fixed@,
        NameMode::Reverse => stem.reverse(),
    }
}

/// A stem after the panels from the second to the seventh.
pub open spec fn reshaped(stem: Seq<char>, rules: Rules) -> Seq<char> {
    added(
        shifted(
            removed(
                recased(replaced_by(renamed_stem(stem, rules.name), rules.replace), rules.case),
                rules.remove,
            ),
            rules.moves,
        ),
        rules.add,
    )
}

/// The date and time that the rule asks for.
pub open spec fn moment_for(file: Candidate, rule: DateRule, now: Moment) -> Option<Moment> {
    match rule.source {
        DateSource::Recorded => if file.recorded is None && rule.fallback {
            file.modified
        } else {
            file.recorded
        },
        DateSource::Modified => file.modified,
        DateSource::Created => file.created,
        DateSource::Now => Some(now),
    }
}

pub open spec fn dated(
    stem: Seq<char>,
    file: Candidate,
    rule: DateRule,
    now: Moment,
) -> Result<Seq<char>, ProblemView> {
    if rule.side == Side::Off {
        Ok(stem)
    } else {
        match moment_for(file, rule, now) {
            None => Err(ProblemView::NoDate),
            Some(when) => match formatted(when, rule.format@) {
                None => Err(
                    ProblemView::Rules(seq!['"'] + rule.format@ + "\" is not a date format"@),
                ),
                Some(date) => Ok(beside_of(stem, date, rule.separator@, rule.side)),
            },
        }
    }
}

/// The names of the `levels` folders that a path is in, the nearest last.
pub open spec fn folders_of(path: Seq<char>, levels: nat, windows: bool) -> Seq<Seq<char>>
    decreases levels,
{
    if levels == 0 {
        Seq::empty()
    } else {
        match parent_of(path, windows) {
            None => Seq::empty(),
            Some(dir) => {
                let above = folders_of(dir, (levels - 1) as nat, windows);
                if file_name_of(dir).len() == 0 {
                    above
                } else {
                    above.push(file_name_of(dir))
                }
            },
        }
    }
}

pub open spec fn foldered(
    stem: Seq<char>,
    path: Seq<char>,
    rule: FolderRule,
    windows: bool,
) -> Seq<char> {
    if rule.side == Side::Off {
        stem
    } else {
        let levels = if rule.levels == 0 {
            1
        } else {
            rule.levels as nat
        };
        beside_of(
            stem,
            joined(folders_of(path, levels, windows), rule.separator@),
            rule.separator@,
            rule.side,
        )
    }
}

/// `stem` with `number` put in the rule's place.
pub open spec fn numbered(stem: Seq<char>, number: i64, rule: NumberRule) -> Seq<char> {
    let text = number_text_of(number, rule);
    let sep = rule.separator@;
    match rule.place {
        NumberPlace::Off => stem,
        NumberPlace::Prefix => beside_of(stem, text, sep, Side::Prefix),
        NumberPlace::Suffix => beside_of(stem, text, sep, Side::Suffix),
        NumberPlace::Both => beside_of(
            beside_of(stem, text, sep, Side::Prefix),
            text,
            sep,
            Side::Suffix,
        ),
        NumberPlace::At => inserted(stem, text, rule.at as nat),
    }
}

pub open spec fn reextended(ext: Seq<char>, rule: ExtensionRule) -> Seq<char> {
    let text = without_lead_dots(rule.text@);
    match rule.mode {
        ExtensionMode::Same => ext,
        ExtensionMode::Lower => lowered(ext),
        ExtensionMode::Upper => uppered(ext),
        ExtensionMode::Title => title_of(ext),
        ExtensionMode::Fixed => text,
        ExtensionMode::Extra => if ext.len() == 0 {
            text
        } else {
            ext + seq!['.'] + text
        },
        ExtensionMode::Remove => Seq::empty(),
    }
}

/// A file's stem and extension after every rule but the numbering.
#[verifier::opaque]
pub open spec fn unnumbered_of(
    file: Candidate,
    rules: Rules,
    now: Moment,
    windows: bool,
) -> Result<(Seq<char>, Seq<char>), ProblemView> {
    let (stem, ext) = parted(file_name_of(file.path@), rules.regex);
    match dated(reshaped(stem, rules), file, rules.date, now) {
        Err(problem) => Err(problem),
        Ok(stem) => Ok(
            (
                foldered(stem, file.path@, rules.folder, windows),
                reextended(ext, rules.extension),
            ),
        ),
    }
}

/// A file's name after every rule, and the counter after it.
pub open spec fn new_name_of(
    file: Candidate,
    rules: Rules,
    now: Moment,
    windows: bool,
    counter: CounterView,
) -> (Result<Seq<char>, ProblemView>, CounterView) {
    match unnumbered_of(file, rules, now, windows) {
        Err(problem) => (Err(problem), counter),
        Ok((stem, ext)) => if rules.numbering.place == NumberPlace::Off {
            (Ok(join_name(stem, ext)), counter)
        } else {
            let folder = parent_of(file.path@, windows);
            let number = counter.number(stem, folder);
            (
                Ok(join_name(numbered(stem, number, rules.numbering), ext)),
                counter.taken(stem, folder),
            )
        },
    }
}

fn part_name(name: &[char], rule: &RegexRule) -> (r: (Vec<char>, Vec<char>))
    ensures
        (r.0@, r.1@) == parted(name@, *rule),
{
    let (stem, ext) = split(name);
    if rule.find.as_str().is_empty() {
        return (stem, ext);
    }
    let with = groups(rule.replace.as_str());
    if rule.extension {
        let whole = join(stem.as_slice(), ext.as_slice());
        let text = string(whole.as_slice());
        match replace_matches(rule.find.as_str(), text.as_str(), with.as_str()) {
            Some(s) => split(chars(s.as_str()).as_slice()),
            None => split(whole.as_slice()),
        }
    } else {
        let text = string(stem.as_slice());
        match replace_matches(rule.find.as_str(), text.as_str(), with.as_str()) {
            Some(s) => (chars(s.as_str()), ext),
            None => (stem, ext),
        }
    }
}

fn reversed(v: &[char]) -> (r: Vec<char>)
    ensures
        r@ == v@.reverse(),
{
    let mut out: Vec<char> = Vec::new();
    let mut i: usize = v.len();
    while i > 0
        invariant
            i <= v@.len(),
            out@ == v@.skip(i as int).reverse(),
        decreases i,
    {
        i = i - 1;
        out.push(v[i]);
        assert(out@ =~= v@.skip(i as int).reverse());
    }
    assert(v@.skip(0) =~= v@);
    out
}

fn reshape(stem: Vec<char>, rules: &Rules) -> (r: Vec<char>)
    ensures
        r@ == reshaped(stem@, *rules),
{
    let s = match rules.name.mode {
        NameMode::Keep => stem,
        NameMode::Remove => Vec::new(),
        NameMode::Fixed => chars(rules.name.fixed.as_str()),
        NameMode::Reverse => reversed(stem.as_slice()),
    };
    let s = replace(s.as_slice(), &rules.replace);
    let s = recase(s.as_slice(), &rules.case);
    let s = remove(s.as_slice(), &rules.remove);
    let s = shift(s.as_slice(), &rules.moves);
    put_on(s.as_slice(), &rules.add)
}

fn date_stem(stem: Vec<char>, file: &Candidate, rule: &DateRule, now: Moment) -> (r: Result<
    Vec<char>,
    Problem,
>)
    ensures
        match r {
            Ok(s) => dated(stem@, *file, *rule, now) == Ok::<Seq<char>, ProblemView>(s@),
            Err(p) => dated(stem@, *file, *rule, now) == Err::<Seq<char>, ProblemView>(p@),
        },
{
    if rule.side == Side::Off {
        return Ok(stem);
    }
    let when = match rule.source {
        DateSource::Recorded => {
            if file.recorded.is_none() && rule.fallback {
                file.modified
            } else {
                file.recorded
            }
        },
        DateSource::Modified => file.modified,
        DateSource::Created => file.created,
        DateSource::Now => Some(now),
    };
    match when {
        None => Err(Problem::NoDate),
        Some(when) => match format_moment(when, rule.format.as_str()) {
            None => {
                let mut why = "\"".to_owned();
                proof {
                    reveal_strlit("\"");
                    assert("\""@ =~= seq!['"']);
                }
                why.append(rule.format.as_str());
                why.append("\" is not a date format");
                Err(Problem::Rules(why))
            },
            Some(date) => {
                let text = chars(date.as_str());
                Ok(beside(stem.as_slice(), text.as_slice(), rule.separator.as_str(), rule.side))
            },
        },
    }
}

fn folders(path: &str, levels: usize, windows: bool) -> (r: Vec<Vec<char>>)
    ensures
        runs(r@) == folders_of(path@, levels as nat, windows),
    decreases levels,
{
    if levels == 0 {
        let out: Vec<Vec<char>> = Vec::new();
        assert(runs(out@) =~= Seq::<Seq<char>>::empty());
        return out;
    }
    match parent(path, windows) {
        None => {
            let out: Vec<Vec<char>> = Vec::new();
            assert(runs(out@) =~= Seq::<Seq<char>>::empty());
            out
        },
        Some(dir) => {
            let mut out = folders(dir.as_str(), levels - 1, windows);
            let name = crate::path::name_chars(dir.as_str());
            if name.len() > 0 {
                let ghost before = runs(out@);
                let ghost n = name@;
                out.push(name);
                assert(runs(out@) =~= before.push(n));
            }
            out
        },
    }
}

fn folder_stem(stem: Vec<char>, path: &str, rule: &FolderRule, windows: bool) -> (r: Vec<char>)
    ensures
        r@ == foldered(stem@, path@, *rule, windows),
{
    if rule.side == Side::Off {
        return stem;
    }
    let levels: usize = if rule.levels == 0 {
        1
    } else {
        rule.levels
    };
    let names = folders(path, levels, windows);
    let sep = chars(rule.separator.as_str());
    let text = join_chars(&names, sep.as_slice());
    beside(stem.as_slice(), text.as_slice(), rule.separator.as_str(), rule.side)
}

fn number_stem(stem: Vec<char>, number: i64, rule: &NumberRule) -> (r: Vec<char>)
    ensures
        r@ == numbered(stem@, number, *rule),
{
    let text = number_text(number, rule);
    let sep = rule.separator.as_str();
    match rule.place {
        NumberPlace::Off => stem,
        NumberPlace::Prefix => beside(stem.as_slice(), text.as_slice(), sep, Side::Prefix),
        NumberPlace::Suffix => beside(stem.as_slice(), text.as_slice(), sep, Side::Suffix),
        NumberPlace::Both => {
            let s = beside(stem.as_slice(), text.as_slice(), sep, Side::Prefix);
            beside(s.as_slice(), text.as_slice(), sep, Side::Suffix)
        },
        NumberPlace::At => insert(stem.as_slice(), text.as_slice(), rule.at),
    }
}

fn reextend(ext: Vec<char>, rule: &ExtensionRule) -> (r: Vec<char>)
    ensures
        r@ == reextended(ext@, *rule),
{
    let given = chars(rule.text.as_str());
    let text = drop_lead_dots(given.as_slice());
    match rule.mode {
        ExtensionMode::Same => ext,
        ExtensionMode::Lower => {
            let s = string(ext.as_slice());
            chars(lower(s.as_str()).as_str())
        },
        ExtensionMode::Upper => {
            let s = string(ext.as_slice());
            chars(upper(s.as_str()).as_str())
        },
        ExtensionMode::Title => title_word(ext.as_slice()),
        ExtensionMode::Fixed => text,
        ExtensionMode::Extra => {
            if ext.len() == 0 {
                text
            } else {
                let mut out = ext;
                let ghost e = out@;
                out.push('.');
                extend(&mut out, text.as_slice());
                assert(out@ =~= e + seq!['.'] + text@);
                out
            }
        },
        ExtensionMode::Remove => Vec::new(),
    }
}

/// `file`'s stem and extension after every rule but the numbering.
fn unnumbered(file: &Candidate, rules: &Rules, now: Moment, windows: bool) -> (r: Result<
    (Vec<char>, Vec<char>),
    Problem,
>)
    ensures
        match r {
            Ok((stem, ext)) => unnumbered_of(*file, *rules, now, windows) == Ok::<
                (Seq<char>, Seq<char>),
                ProblemView,
            >((stem@, ext@)),
            Err(problem) => unnumbered_of(*file, *rules, now, windows) == Err::<
                (Seq<char>, Seq<char>),
                ProblemView,
            >(problem@),
        },
{
    reveal(unnumbered_of);
    let name = crate::path::name_chars(file.path.as_str());
    let (stem, ext) = part_name(name.as_slice(), &rules.regex);
    let stem = reshape(stem, rules);
    let stem = match date_stem(stem, file, &rules.date, now) {
        Ok(stem) => stem,
        Err(problem) => {
            return Err(problem);
        },
    };
    let stem = folder_stem(stem, file.path.as_str(), &rules.folder, windows);
    Ok((stem, reextend(ext, &rules.extension)))
}

/// Whether the counter can count on past a file, where it takes a number.
pub open spec fn counts_past(
    file: Candidate,
    rules: Rules,
    now: Moment,
    windows: bool,
    counter: CounterView,
) -> bool {
    rules.numbering.place != NumberPlace::Off ==> match unnumbered_of(file, rules, now, windows) {
        Ok((stem, _)) => counter.can_take(stem, parent_of(file.path@, windows)),
        Err(_) => true,
    }
}

/// `file`'s name after every rule.
pub fn new_name(
    file: &Candidate,
    rules: &Rules,
    now: Moment,
    windows: bool,
    counter: &mut Counter,
) -> (r: Result<String, Problem>)
    requires
        counts_past(*file, *rules, now, windows, old(counter)@),
    ensures
        match r {
            Ok(name) => new_name_of(*file, *rules, now, windows, old(counter)@) == (
                Ok::<Seq<char>, ProblemView>(name@),
                final(counter)@,
            ),
            Err(problem) => new_name_of(*file, *rules, now, windows, old(counter)@) == (
                Err::<Seq<char>, ProblemView>(problem@),
                final(counter)@,
            ),
        },
{
    let (stem, ext) = match unnumbered(file, rules, now, windows) {
        Ok(parts) => parts,
        Err(problem) => {
            return Err(problem);
        },
    };
    let stem = if rules.numbering.place != NumberPlace::Off {
        let folder = parent(file.path.as_str(), windows);
        let number: i64 = counter.take(stem.as_slice(), folder);
        number_stem(stem, number, &rules.numbering)
    } else {
        stem
    };
    let whole = join(stem.as_slice(), ext.as_slice());
    Ok(string(whole.as_slice()))
}

/// What the rules make of one file.
#[derive(Debug, PartialEq)]
pub struct Planned {
    pub from: String,
    pub to: String,
    pub problem: Option<Problem>,
}

#[verifier::ext_equal]
pub struct PlannedView {
    pub from: Seq<char>,
    pub to: Seq<char>,
    pub problem: Option<ProblemView>,
}

pub open spec fn problem_view(p: Option<Problem>) -> Option<ProblemView> {
    match p {
        Some(p) => Some(p@),
        None => None,
    }
}

impl View for Planned {
    type V = PlannedView;

    open spec fn view(&self) -> PlannedView {
        PlannedView { from: self.from@, to: self.to@, problem: problem_view(self.problem) }
    }
}

impl PlannedView {
    /// Whether the file gets another name.
    pub open spec fn moves(self) -> bool {
        self.from != self.to
    }
}

impl Planned {
    pub fn changes(&self) -> (r: bool)
        ensures
            r == self@.moves(),
    {
        !same(self.from.as_str(), self.to.as_str())
    }
}

pub open spec fn planned_view(p: Option<Planned>) -> Option<PlannedView> {
    match p {
        Some(p) => Some(p@),
        None => None,
    }
}

/// Plans by their views.
pub open spec fn plan_views(s: Seq<Option<Planned>>) -> Seq<Option<PlannedView>> {
    s.map_values(|p: Option<Planned>| planned_view(p))
}

/// Why the first panel's expression does not work, where it does not.
pub open spec fn compile_of(rule: RegexRule) -> Option<Seq<char>> {
    if rule.find@.len() == 0 {
        None
    } else {
        match regex_error(rule.find@) {
            None => None,
            Some(why) => Some("the regular expression does not work: "@ + why),
        }
    }
}

/// Why the first panel's expression does not work, where it does not.
pub fn compile(rule: &RegexRule) -> (r: Option<String>)
    ensures
        crate::wav::text_view(r) == compile_of(*rule),
{
    if rule.find.as_str().is_empty() {
        return None;
    }
    match problem_with(rule.find.as_str()) {
        None => None,
        Some(e) => {
            let mut why = "the regular expression does not work: ".to_owned();
            why.append(e.as_str());
            Some(why)
        },
    }
}

/// What the rules make of a file by itself.
pub open spec fn draft_one(
    file: Candidate,
    rules: Rules,
    now: Moment,
    windows: bool,
    counter: CounterView,
) -> (PlannedView, CounterView) {
    let (name, next) = new_name_of(file, rules, now, windows, counter);
    (
        match name {
            Ok(name) => PlannedView {
                from: file.path@,
                to: with_file_name_of(file.path@, name),
                problem: match invalid_of(name, windows) {
                    Some(why) => Some(ProblemView::Invalid(why)),
                    None => None,
                },
            },
            Err(problem) => PlannedView {
                from: file.path@,
                to: with_file_name_of(file.path@, file_name_of(file.path@)),
                problem: Some(problem),
            },
        },
        next,
    )
}

/// What the rules make of the first `n` files, each by itself, and the
/// counter after them. Files that are not chosen take no number.
pub open spec fn draft_upto(
    files: Seq<Candidate>,
    chosen: Seq<bool>,
    rules: Rules,
    now: Moment,
    windows: bool,
    n: nat,
) -> (Seq<Option<PlannedView>>, CounterView)
    decreases n,
{
    if n == 0 {
        (Seq::empty(), counter_start(rules.numbering))
    } else {
        let (before, counter) = draft_upto(files, chosen, rules, now, windows, (n - 1) as nat);
        if chosen[n - 1] {
            let (planned, next) = draft_one(files[n - 1], rules, now, windows, counter);
            (before.push(Some(planned)), next)
        } else {
            (before.push(None), counter)
        }
    }
}

/// How many of the files have a choice made of them.
pub open spec fn paired(files: Seq<Candidate>, chosen: Seq<bool>) -> nat {
    if files.len() <= chosen.len() {
        files.len()
    } else {
        chosen.len()
    }
}

/// What the rules make of each chosen file by itself.
pub open spec fn draft_of(
    files: Seq<Candidate>,
    chosen: Seq<bool>,
    rules: Rules,
    now: Moment,
    windows: bool,
) -> Seq<Option<PlannedView>> {
    match compile_of(rules.regex) {
        Some(why) => Seq::new(
            paired(files, chosen),
            |i: int|
                if chosen[i] {
                    Some(
                        PlannedView {
                            from: files[i].path@,
                            to: files[i].path@,
                            problem: Some(ProblemView::Rules(why)),
                        },
                    )
                } else {
                    None
                },
        ),
        None => draft_upto(files, chosen, rules, now, windows, paired(files, chosen)).0,
    }
}

/// Whether the numbers of the first `n` files can be counted.
pub open spec fn counts_upto(
    files: Seq<Candidate>,
    chosen: Seq<bool>,
    rules: Rules,
    now: Moment,
    windows: bool,
    n: nat,
) -> bool {
    forall|i: int|
        0 <= i < n && #[trigger] chosen[i] ==> counts_past(
            files[i],
            rules,
            now,
            windows,
            draft_upto(files, chosen, rules, now, windows, i as nat).1,
        )
}

/// Whether the numbers of the chosen files can be counted: none are where the
/// rules do not work.
pub open spec fn can_be_counted(
    files: Seq<Candidate>,
    chosen: Seq<bool>,
    rules: Rules,
    now: Moment,
    windows: bool,
) -> bool {
    compile_of(rules.regex) is Some || counts_upto(
        files,
        chosen,
        rules,
        now,
        windows,
        paired(files, chosen),
    )
}

/// Whether the numbers of the chosen files can be counted.
pub fn can_count(
    files: &[Candidate],
    chosen: &[bool],
    rules: &Rules,
    now: Moment,
    windows: bool,
) -> (r: bool)
    ensures
        r == can_be_counted(files@, chosen@, *rules, now, windows),
{
    if rules.numbering.place == NumberPlace::Off || compile(&rules.regex).is_some() {
        return true;
    }
    let n: usize = if files.len() <= chosen.len() {
        files.len()
    } else {
        chosen.len()
    };
    let mut counter = Counter::new(&rules.numbering);
    let mut i: usize = 0;
    while i < n
        invariant
            i <= n,
            n == paired(files@, chosen@),
            rules.numbering.place != NumberPlace::Off,
            compile_of(rules.regex) is None,
            counter@ == draft_upto(files@, chosen@, *rules, now, windows, i as nat).1,
            counts_upto(files@, chosen@, *rules, now, windows, i as nat),
        decreases n - i,
    {
        if chosen[i] {
            let file = &files[i];
            if let Ok((stem, _)) = unnumbered(file, rules, now, windows) {
                let folder = parent(file.path.as_str(), windows);
                if !counter.fits(stem.as_slice(), &folder) {
                    assert(!counts_past(files@[i as int], *rules, now, windows, counter@));
                    assert(chosen@[i as int]);
                    return false;
                }
                let _ = counter.take(stem.as_slice(), folder);
            }
        }
        i = i + 1;
    }
    true
}

/// What the rules make of each chosen file by itself, in order, and what
/// stands in the way of any. Unchosen files get `None` and take no number.
#[verifier::spinoff_prover]
#[verifier::rlimit(40)]
pub fn draft(
    files: &[Candidate],
    chosen: &[bool],
    rules: &Rules,
    now: Moment,
    windows: bool,
) -> (r: Vec<Option<Planned>>)
    requires
        can_be_counted(files@, chosen@, *rules, now, windows),
    ensures
        plan_views(r@) == draft_of(files@, chosen@, *rules, now, windows),
{
    let n: usize = if files.len() <= chosen.len() {
        files.len()
    } else {
        chosen.len()
    };
    let mut out: Vec<Option<Planned>> = Vec::new();
    match compile(&rules.regex) {
        Some(why) => {
            let ghost all = draft_of(files@, chosen@, *rules, now, windows);
            let mut i: usize = 0;
            while i < n
                invariant
                    i <= n,
                    n == paired(files@, chosen@),
                    all == draft_of(files@, chosen@, *rules, now, windows),
                    compile_of(rules.regex) == Some(why@),
                    plan_views(out@) == all.take(i as int),
                decreases n - i,
            {
                let ghost before = plan_views(out@);
                let one = if chosen[i] {
                    Some(
                        Planned {
                            from: files[i].path.clone(),
                            to: files[i].path.clone(),
                            problem: Some(Problem::Rules(why.clone())),
                        },
                    )
                } else {
                    None
                };
                let ghost v = planned_view(one);
                out.push(one);
                i = i + 1;
                assert(plan_views(out@) =~= before.push(v));
                assert(v == all[i - 1]);
                assert(all.take(i as int) =~= all.take(i - 1).push(all[i - 1]));
            }
            assert(all.take(i as int) =~= all);
        },
        None => {
            let mut counter = Counter::new(&rules.numbering);
            let mut i: usize = 0;
            assert(plan_views(out@) =~= Seq::<Option<PlannedView>>::empty());
            while i < n
                invariant
                    i <= n,
                    n == paired(files@, chosen@),
                    counts_upto(files@, chosen@, *rules, now, windows, n as nat),
                    (plan_views(out@), counter@) == draft_upto(
                        files@,
                        chosen@,
                        *rules,
                        now,
                        windows,
                        i as nat,
                    ),
                decreases n - i,
            {
                let ghost before = plan_views(out@);
                if chosen[i] {
                    let file = &files[i];
                    let ghost had = counter@;
                    let one = match new_name(file, rules, now, windows, &mut counter) {
                        Ok(name) => {
                            let problem = match invalid(name.as_str(), windows) {
                                Some(why) => Some(Problem::Invalid(why)),
                                None => None,
                            };
                            Planned {
                                from: file.path.clone(),
                                to: with_file_name(file.path.as_str(), name.as_str()),
                                problem,
                            }
                        },
                        Err(problem) => {
                            let name = file.name();
                            Planned {
                                from: file.path.clone(),
                                to: with_file_name(file.path.as_str(), name.as_str()),
                                problem: Some(problem),
                            }
                        },
                    };
                    let ghost v = one@;
                    assert(v =~= draft_one(*file, *rules, now, windows, had).0);
                    out.push(Some(one));
                    assert(plan_views(out@) =~= before.push(Some(v)));
                } else {
                    out.push(None);
                    assert(plan_views(out@) =~= before.push(None));
                }
                i = i + 1;
            }
        },
    }
    out
}

/// How many files of the plan move to a name that is `key` in lower case.
pub open spec fn count_to(plan: Seq<Option<PlannedView>>, key: Seq<char>) -> nat
    decreases plan.len(),
{
    if plan.len() == 0 {
        0
    } else {
        let before = count_to(plan.drop_last(), key);
        match plan.last() {
            Some(p) => if p.moves() && lowered(p.to) == key {
                before + 1
            } else {
                before
            },
            None => before,
        }
    }
}

/// Whether a file of the plan that nothing stands in the way of leaves a
/// name that is `key` in lower case.
pub open spec fn leaves(plan: Seq<Option<PlannedView>>, key: Seq<char>) -> bool {
    exists|j: int|
        0 <= j < plan.len() && ((#[trigger] plan[j]) matches Some(p) && p.moves() && p.problem
            is None && lowered(p.from) == key)
}

/// A file of the plan held against the others and the disk. Names are
/// compared as a disk that ignores case would. Only names that change count
/// as given twice, so a file keeping its name is no duplicate of one renamed
/// onto it; that one is refused because a file already has its name.
pub open spec fn settled_one(
    plan: Seq<Option<PlannedView>>,
    taken: Seq<Seq<char>>,
    i: int,
) -> Option<PlannedView> {
    match plan[i] {
        None => None,
        Some(p) => if p.problem is Some {
            Some(p)
        } else if count_to(plan, lowered(p.to)) > 1 {
            Some(PlannedView { problem: Some(ProblemView::Duplicate), ..p })
        } else if p.moves() && lowered(p.to) != lowered(p.from) && !leaves(plan, lowered(p.to))
            && taken.contains(p.to) {
            Some(PlannedView { problem: Some(ProblemView::Exists), ..p })
        } else {
            Some(p)
        },
    }
}

/// The plan held against itself and against the paths at which something is.
pub open spec fn settled(
    plan: Seq<Option<PlannedView>>,
    taken: Seq<Seq<char>>,
) -> Seq<Option<PlannedView>> {
    Seq::new(plan.len(), |i: int| settled_one(plan, taken, i))
}

/// Texts by their views.
pub open spec fn texts(s: Seq<String>) -> Seq<Seq<char>> {
    s.map_values(|t: String| t@)
}

/// Whether `keys` are the names of the plan in lower case: where each file
/// goes and where it comes from.
spec fn keys_of(plan: Seq<Option<Planned>>, keys: Seq<(String, String)>) -> bool {
    &&& plan.len() == keys.len()
    &&& forall|j: int|
        0 <= j < plan.len() ==> ((#[trigger] plan[j]) matches Some(p) ==> keys[j].0@ == lowered(
            p.to@,
        ) && keys[j].1@ == lowered(p.from@))
}

fn lower_keys(plan: &Vec<Option<Planned>>) -> (r: Vec<(String, String)>)
    ensures
        keys_of(plan@, r@),
{
    let mut out: Vec<(String, String)> = Vec::new();
    let mut i: usize = 0;
    while i < plan.len()
        invariant
            i <= plan@.len(),
            out@.len() == i,
            forall|j: int|
                0 <= j < i ==> ((#[trigger] plan@[j]) matches Some(p) ==> out@[j].0@ == lowered(
                    p.to@,
                ) && out@[j].1@ == lowered(p.from@)),
        decreases plan@.len() - i,
    {
        match &plan[i] {
            Some(p) => {
                out.push((lower(p.to.as_str()), lower(p.from.as_str())));
            },
            None => {
                out.push((String::new(), String::new()));
            },
        }
        i = i + 1;
    }
    out
}

fn given_twice(plan: &Vec<Option<Planned>>, keys: &Vec<(String, String)>, key: &str) -> (r: bool)
    requires
        keys_of(plan@, keys@),
    ensures
        r == (count_to(plan_views(plan@), key@) > 1),
{
    let ghost all = plan_views(plan@);
    let mut count: usize = 0;
    let mut i: usize = 0;
    assert(all.take(0) =~= Seq::<Option<PlannedView>>::empty());
    while i < plan.len()
        invariant
            i <= plan@.len(),
            keys_of(plan@, keys@),
            all == plan_views(plan@),
            count == count_to(all.take(i as int), key@),
            count <= i,
        decreases plan@.len() - i,
    {
        proof {
            assert(all[i as int] == planned_view(plan@[i as int]));
            assert(all.take(i + 1).drop_last() =~= all.take(i as int));
        }
        match &plan[i] {
            Some(p) => {
                if p.changes() && same(keys[i].0.as_str(), key) {
                    count = count + 1;
                }
            },
            None => {},
        }
        i = i + 1;
    }
    assert(all.take(i as int) =~= all);
    count > 1
}

fn is_left(plan: &Vec<Option<Planned>>, keys: &Vec<(String, String)>, key: &str) -> (r: bool)
    requires
        keys_of(plan@, keys@),
    ensures
        r == leaves(plan_views(plan@), key@),
{
    let ghost all = plan_views(plan@);
    let mut i: usize = 0;
    while i < plan.len()
        invariant
            i <= plan@.len(),
            keys_of(plan@, keys@),
            all == plan_views(plan@),
            forall|j: int|
                0 <= j < i ==> !((#[trigger] all[j]) matches Some(p) && p.moves() && p.problem
                    is None && lowered(p.from) == key@),
        decreases plan@.len() - i,
    {
        assert(all[i as int] == planned_view(plan@[i as int]));
        match &plan[i] {
            Some(p) => {
                if p.changes() && p.problem.is_none() && same(keys[i].1.as_str(), key) {
                    return true;
                }
            },
            None => {},
        }
        i = i + 1;
    }
    false
}

fn is_taken(taken: &Vec<String>, path: &str) -> (r: bool)
    ensures
        r == texts(taken@).contains(path@),
{
    let mut i: usize = 0;
    while i < taken.len()
        invariant
            i <= taken@.len(),
            forall|j: int| 0 <= j < i ==> texts(taken@)[j] != path@,
        decreases taken@.len() - i,
    {
        assert(texts(taken@)[i as int] == taken@[i as int]@);
        if same(taken[i].as_str(), path) {
            return true;
        }
        i = i + 1;
    }
    false
}

/// The plan held against itself, and against `taken`, the paths at which
/// something is.
pub fn settle(plan: &Vec<Option<Planned>>, taken: &Vec<String>) -> (r: Vec<Option<Planned>>)
    ensures
        plan_views(r@) == settled(plan_views(plan@), texts(taken@)),
{
    let ghost all = plan_views(plan@);
    let ghost end = settled(all, texts(taken@));
    let keys = lower_keys(plan);
    let mut out: Vec<Option<Planned>> = Vec::new();
    let mut i: usize = 0;
    while i < plan.len()
        invariant
            i <= plan@.len(),
            keys_of(plan@, keys@),
            all == plan_views(plan@),
            end == settled(all, texts(taken@)),
            plan_views(out@) == end.take(i as int),
        decreases plan@.len() - i,
    {
        let ghost before = plan_views(out@);
        assert(all[i as int] == planned_view(plan@[i as int]));
        let one = match &plan[i] {
            None => None,
            Some(p) => {
                let problem = if p.problem.is_some() {
                    p.problem.clone()
                } else if given_twice(plan, &keys, keys[i].0.as_str()) {
                    Some(Problem::Duplicate)
                } else if p.changes() && !same(keys[i].0.as_str(), keys[i].1.as_str()) && !is_left(
                    plan,
                    &keys,
                    keys[i].0.as_str(),
                ) && is_taken(taken, p.to.as_str()) {
                    Some(Problem::Exists)
                } else {
                    None
                };
                Some(Planned { from: p.from.clone(), to: p.to.clone(), problem })
            },
        };
        let ghost v = planned_view(one);
        assert(v =~~= settled_one(all, texts(taken@), i as int));
        out.push(one);
        i = i + 1;
        assert(plan_views(out@) =~= before.push(v));
        assert(end.take(i as int) =~= end.take(i - 1).push(end[i - 1]));
    }
    assert(end.take(i as int) =~= end);
    out
}

/// The new name of each chosen file, in order, and what stands in the way
/// of any, given the paths at which something is. Unchosen files get `None`
/// and take no number.
pub fn plan(
    files: &[Candidate],
    chosen: &[bool],
    rules: &Rules,
    now: Moment,
    windows: bool,
    taken: &Vec<String>,
) -> (r: Vec<Option<Planned>>)
    requires
        can_be_counted(files@, chosen@, *rules, now, windows),
    ensures
        plan_views(r@) == settled(
            draft_of(files@, chosen@, *rules, now, windows),
            texts(taken@),
        ),
{
    let drafted = draft(files, chosen, rules, now, windows);
    settle(&drafted, taken)
}

/// What the rules make of each chosen file by itself, where their numbers
/// can be counted.
pub fn checked_draft(
    files: &[Candidate],
    chosen: &[bool],
    rules: &Rules,
    now: Moment,
    windows: bool,
) -> (r: Option<Vec<Option<Planned>>>)
    ensures
        match r {
            Some(p) => can_be_counted(files@, chosen@, *rules, now, windows) && plan_views(p@)
                == draft_of(files@, chosen@, *rules, now, windows),
            None => !can_be_counted(files@, chosen@, *rules, now, windows),
        },
{
    if can_count(files, chosen, rules, now, windows) {
        Some(draft(files, chosen, rules, now, windows))
    } else {
        None
    }
}

/// The new name of each chosen file and what stands in the way of any, where
/// their numbers can be counted.
pub fn checked_plan(
    files: &[Candidate],
    chosen: &[bool],
    rules: &Rules,
    now: Moment,
    windows: bool,
    taken: &Vec<String>,
) -> (r: Option<Vec<Option<Planned>>>)
    ensures
        match r {
            Some(p) => can_be_counted(files@, chosen@, *rules, now, windows) && plan_views(p@)
                == settled(draft_of(files@, chosen@, *rules, now, windows), texts(taken@)),
            None => !can_be_counted(files@, chosen@, *rules, now, windows),
        },
{
    if can_count(files, chosen, rules, now, windows) {
        Some(plan(files, chosen, rules, now, windows, taken))
    } else {
        None
    }
}

/// Files that a plan has nothing in the way of and that get another name
/// never get the same one, however its case is compared.
pub proof fn no_name_is_given_twice(
    plan: Seq<Option<PlannedView>>,
    taken: Seq<Seq<char>>,
    i: int,
    j: int,
)
    requires
        0 <= i < j < plan.len(),
    ensures
        (settled(plan, taken)[i] matches Some(p) && p.problem is None && p.moves()) && (settled(
            plan,
            taken,
        )[j] matches Some(q) && q.problem is None && q.moves()) ==> lowered(
            (settled(plan, taken)[i]->0).to,
        ) != lowered((settled(plan, taken)[j]->0).to),
{
    let a = settled(plan, taken)[i];
    let b = settled(plan, taken)[j];
    if a is Some && b is Some && (a->0).problem is None && (b->0).problem is None && (a->0).moves()
        && (b->0).moves() && lowered((a->0).to) == lowered((b->0).to) {
        lemma_two_counted(plan, lowered((a->0).to), i, j);
    }
}

proof fn lemma_one_counted(plan: Seq<Option<PlannedView>>, key: Seq<char>, i: int)
    requires
        0 <= i < plan.len(),
        plan[i] matches Some(p) && p.moves() && lowered(p.to) == key,
    ensures
        count_to(plan, key) >= 1,
    decreases plan.len(),
{
    if i < plan.len() - 1 {
        lemma_one_counted(plan.drop_last(), key, i);
    }
}

proof fn lemma_two_counted(plan: Seq<Option<PlannedView>>, key: Seq<char>, i: int, j: int)
    requires
        0 <= i < j < plan.len(),
        plan[i] matches Some(p) && p.moves() && lowered(p.to) == key,
        plan[j] matches Some(p) && p.moves() && lowered(p.to) == key,
    ensures
        count_to(plan, key) >= 2,
    decreases plan.len(),
{
    if j < plan.len() - 1 {
        lemma_two_counted(plan.drop_last(), key, i, j);
    } else {
        lemma_one_counted(plan.drop_last(), key, i);
    }
}

/// Rules with every panel off leave a name as it was.
pub proof fn rules_that_are_off_keep_the_name(
    file: Candidate,
    rules: Rules,
    now: Moment,
    windows: bool,
    counter: CounterView,
)
    requires
        rules.keeps_names(),
    ensures
        new_name_of(file, rules, now, windows, counter).1 == counter,
        new_name_of(file, rules, now, windows, counter).0 matches Ok(name) && (name == file_name_of(
            file.path@,
        ) || name + seq!['.'] == file_name_of(file.path@)),
{
    reveal(unnumbered_of);
    let name = file_name_of(file.path@);
    let (stem, ext) = split_name(name);
    crate::path::lemma_last_before(name, '.', name.len() as int);
    assert(without_ends(stem, 0, 0) =~= stem);
    assert(trim_of(rules.remove.words@).len() == 0);
    assert(removed(stem, rules.remove) =~= stem);
    assert(added(stem, rules.add) =~= stem);
    let dot = last_of(name, '.');
    if dot > 0 {
        if ext.len() == 0 {
            assert(stem + seq!['.'] =~= name);
        } else {
            assert(join_name(stem, ext) =~= name);
        }
    }
}

/// Rules as they start out keep every name.
pub proof fn rules_start_out_off(rules: Rules)
    requires
        rules.is_plain(),
    ensures
        rules.keeps_names(),
{
}

/// What stands at a path.
#[derive(Debug, Clone, Copy, PartialEq, Eq, Structural)]
pub enum Kind {
    Folder,
    File,
    Other,
}

/// What listing a folder does with something in it.
#[derive(Debug, Clone, Copy, PartialEq, Eq, Structural)]
pub enum Treatment {
    /// Pass it over.
    Skip,
    /// List what is in it too.
    Enter,
    /// List it.
    Take,
}

impl Filters {
    /// What listing does with what stands at `path`: what is hidden is
    /// passed over, folders are gone into where subfolders are asked for,
    /// and files are listed where the filters admit them.
    pub open spec fn treats(self, path: Seq<char>, kind: Kind) -> Treatment {
        let name = file_name_of(path);
        if name.len() > 0 && name[0] == '.' {
            Treatment::Skip
        } else if kind == Kind::Folder {
            if self.subfolders {
                Treatment::Enter
            } else {
                Treatment::Skip
            }
        } else if kind == Kind::File && self.lets_through(path) {
            Treatment::Take
        } else {
            Treatment::Skip
        }
    }

    /// What listing does with what stands at `path`.
    pub fn treat(&self, path: &str, kind: Kind) -> (r: Treatment)
        ensures
            r == self.treats(path@, kind),
    {
        let name = crate::path::name_chars(path);
        if name.len() > 0 && name[0] == '.' {
            return Treatment::Skip;
        }
        if kind == Kind::Folder {
            return if self.subfolders {
                Treatment::Enter
            } else {
                Treatment::Skip
            };
        }
        if kind == Kind::File && self.admits(path) {
            Treatment::Take
        } else {
            Treatment::Skip
        }
    }
}

/// The natural order of files by their paths.
pub open spec fn path_order() -> spec_fn(Candidate, Candidate) -> bool {
    |a: Candidate, b: Candidate| sooner(lowered(a.path@), lowered(b.path@))
}

fn place_file(v: &mut Vec<Candidate>, f: Candidate)
    ensures
        final(v)@ == insert_by(old(v)@, f, path_order()),
{
    let ghost all = v@;
    let ghost less = path_order();
    let key = lower(f.path.as_str());
    let mut at: usize = v.len();
    assert(all.take(at as int) =~= all);
    assert(all.skip(at as int) =~= Seq::<Candidate>::empty());
    while at > 0
        invariant
            at <= v@.len(),
            all == v@,
            key@ == lowered(f.path@),
            less == path_order(),
            insert_by(all, f, less) == insert_by(all.take(at as int), f, less) + all.skip(at as int),
        ensures
            at <= v@.len(),
            all == v@,
            insert_by(all, f, less) == all.take(at as int).push(f) + all.skip(at as int),
        decreases at,
    {
        let other = lower(v[at - 1].path.as_str());
        let ghost head = all.take(at as int);
        assert(head.last() == v@[at - 1]);
        if !goes_first(key.as_str(), other.as_str()) {
            break;
        }
        proof {
            assert(head.drop_last() =~= all.take(at - 1));
            assert(insert_by(all.take(at - 1), f, less).push(head.last()) + all.skip(at as int)
                =~= insert_by(all.take(at - 1), f, less) + all.skip(at - 1));
        }
        at = at - 1;
    }
    v.insert(at, f);
    assert(v@ =~= all.take(at as int).push(f) + all.skip(at as int));
}

/// The files in the natural order of their paths.
pub fn sort_found(found: Vec<Candidate>) -> (r: Vec<Candidate>)
    ensures
        r@ == sort_by(found@, path_order()),
{
    let ghost all = found@;
    let mut out: Vec<Candidate> = Vec::new();
    let mut i: usize = 0;
    assert(all.take(0) =~= Seq::<Candidate>::empty());
    assert(out@ =~= sort_by(all.take(0), path_order()));
    while i < found.len()
        invariant
            i <= found@.len(),
            all == found@,
            out@ == sort_by(all.take(i as int), path_order()),
        decreases found@.len() - i,
    {
        assert(all.take(i + 1).drop_last() =~= all.take(i as int));
        let f = found[i].clone();
        place_file(&mut out, f);
        i = i + 1;
    }
    assert(all.take(i as int) =~= all);
    out
}

} // verus!
