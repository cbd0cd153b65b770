//! That marks are kept: what is set is written, and what was written shows.

use crate::edit::{changes_of, edits_of, highest_id, trimmed, EditsView};
use crate::roundtrip::{can_be_saved, what_was_edited_shows_again};
use crate::save::saved_of;
use crate::text::{tidy, trim_of, trimming_cuts_only_white_space};
use crate::wav::{before, insert_mark, sort_marks, wav_of, MarkerView};
use vstd::prelude::*;

verus! {

/// Whether marks stand by their frames, and by their ids where two are at one
/// frame.
pub open spec fn in_order(s: Seq<MarkerView>) -> bool {
    forall|i: int, j: int|
        0 <= i < j < s.len() ==> (#[trigger] s[i]).frame < (#[trigger] s[j]).frame || (s[i].frame
            == s[j].frame && s[i].id <= s[j].id)
}

/// Sorted marks are the marks that were there, each as often, in order.
pub proof fn sorting_keeps_every_mark(s: Seq<MarkerView>)
    ensures
        sort_marks(s).to_multiset() == s.to_multiset(),
        sort_marks(s).len() == s.len(),
        in_order(sort_marks(s)),
    decreases s.len(),
{
    if s.len() > 0 {
        let rest = s.drop_last();
        sorting_keeps_every_mark(rest);
        lemma_mark_inserted(sort_marks(rest), s.last());
        assert(s =~= rest.push(s.last()));
        rest.to_multiset_ensures();
        assert(sort_marks(s).to_multiset() =~= s.to_multiset());
    }
}

proof fn lemma_mark_inserted(s: Seq<MarkerView>, m: MarkerView)
    requires
        in_order(s),
    ensures
        insert_mark(s, m).to_multiset() == s.to_multiset().insert(m),
        insert_mark(s, m).len() == s.len() + 1,
        in_order(insert_mark(s, m)),
    decreases s.len(),
{
    s.to_multiset_ensures();
    if s.len() == 0 || !before(m, s.last()) {
        let r = s.push(m);
        assert forall|i: int, j: int| 0 <= i < j < r.len() implies (#[trigger] r[i]).frame < (
        #[trigger] r[j]).frame || (r[i].frame == r[j].frame && r[i].id <= r[j].id) by {
            if j == s.len() {
                assert(r[i] == s[i]);
                assert(s.last() == s[s.len() - 1]);
            }
        }
    } else {
        let rest = s.drop_last();
        lemma_mark_inserted(rest, m);
        let t = insert_mark(rest, m);
        let r = t.push(s.last());
        rest.to_multiset_ensures();
        t.to_multiset_ensures();
        assert(s =~= rest.push(s.last()));
        assert(r.to_multiset() =~= s.to_multiset().insert(m));
        assert forall|i: int, j: int| 0 <= i < j < r.len() implies (#[trigger] r[i]).frame < (
        #[trigger] r[j]).frame || (r[i].frame == r[j].frame && r[i].id <= r[j].id) by {
            if j == t.len() {
                assert(t[i] == r[i]);
                assert(t.contains(t[i]));
                assert(t.to_multiset().count(t[i]) > 0);
                assert(rest.to_multiset().insert(m).count(t[i]) > 0);
                if t[i] != m {
                    assert(rest.contains(t[i]));
                    let k = choose|k: int| 0 <= k < rest.len() && rest[k] == t[i];
                    assert(s[k] == t[i]);
                }
            }
        }
    }
}

/// Marks as they are written: each with its id, its frame and its length, and
/// its label and its note without the white space around them.
pub open spec fn as_written(s: Seq<MarkerView>) -> Seq<MarkerView> {
    Seq::new(
        s.len(),
        |i: int|
            MarkerView {
                id: s[i].id,
                frame: s[i].frame,
                length: s[i].length,
                label: trim_of(s[i].label),
                note: trim_of(s[i].note),
            },
    )
}

/// Whether no mark's label or note has white space at its ends.
pub open spec fn all_tidy(s: Seq<MarkerView>) -> bool {
    forall|i: int| 0 <= i < s.len() ==> tidy((#[trigger] s[i]).label) && tidy(s[i].note)
}

proof fn lemma_tidy_marks(s: Seq<MarkerView>)
    ensures
        s.map_values(|m: MarkerView| trimmed(m)) == as_written(s),
        all_tidy(s) ==> as_written(s) == s,
{
    let w = as_written(s);
    assert forall|i: int| 0 <= i < s.len() implies #[trigger] w[i] == trimmed(s[i]) by {
        assert(trimmed(s[i]).note =~= w[i].note);
    }
    assert(s.map_values(|m: MarkerView| trimmed(m)) =~= w);
    if all_tidy(s) {
        let none = Seq::<char>::empty();
        assert forall|i: int| 0 <= i < s.len() implies #[trigger] w[i] == s[i] by {
            trimming_cuts_only_white_space(none, s[i].label, none);
            assert(none + s[i].label + none =~= s[i].label);
            trimming_cuts_only_white_space(none, s[i].note, none);
            assert(none + s[i].note + none =~= s[i].note);
        }
        assert(w =~= s);
    }
}

/// Every mark that was edited is written, and no other, in order: with its
/// label and its note, less the white space around them. Marks left as they
/// were are not written at all.
pub proof fn every_edited_mark_is_written(e: EditsView, saved: EditsView, samples: Option<u64>)
    requires
        changes_of(e, saved, samples) is Ok,
    ensures
        ({
            let written = changes_of(e, saved, samples)->Ok_0.markers;
            &&& written is None <==> e.markers == saved.markers
            &&& written matches Some(ms) ==> {
                &&& ms.to_multiset() == as_written(e.markers).to_multiset()
                &&& ms.len() == e.markers.len()
                &&& in_order(ms)
                &&& all_tidy(e.markers) ==> ms.to_multiset() == e.markers.to_multiset()
            }
        }),
{
    lemma_tidy_marks(e.markers);
    sorting_keeps_every_mark(as_written(e.markers));
}

/// A file that was saved and opened again shows the marks that were edited,
/// each as often, in order: with their labels and their notes, less the white
/// space around them.
pub proof fn every_edited_mark_shows_again(f: Seq<u8>, e: EditsView, samples: Option<u64>)
    requires
        wav_of(f) is Ok,
        e.held == edits_of(wav_of(f)->Ok_0).held,
        e.bext.len() == 5,
        changes_of(e, edits_of(wav_of(f)->Ok_0), samples) is Ok,
        can_be_saved(f, changes_of(e, edits_of(wav_of(f)->Ok_0), samples)->Ok_0),
        e.markers != edits_of(wav_of(f)->Ok_0).markers,
    ensures
        saved_of(f, changes_of(e, edits_of(wav_of(f)->Ok_0), samples)->Ok_0) matches Ok(g)
            && wav_of(g) matches Ok(c) && {
            let shown = edits_of(c).markers;
            &&& shown.to_multiset() == as_written(e.markers).to_multiset()
            &&& in_order(shown)
            &&& all_tidy(e.markers) ==> shown.to_multiset() == e.markers.to_multiset()
        },
{
    what_was_edited_shows_again(f, e, samples);
    lemma_tidy_marks(e.markers);
    sorting_keeps_every_mark(as_written(e.markers));
}

/// A new mark's id is one above the highest there is, which some mark has, or
/// the first where there are none.
pub proof fn the_highest_id_is_one_of_them(s: Seq<MarkerView>, i: int)
    ensures
        0 <= i < s.len() ==> s[i].id <= highest_id(s),
        s.len() > 0 && highest_id(s) > 0 ==> exists|k: int|
            0 <= k < s.len() && (#[trigger] s[k]).id == highest_id(s),
        s.len() == 0 ==> highest_id(s) == 0,
    decreases s.len(),
{
    if s.len() > 0 {
        let rest = s.drop_last();
        the_highest_id_is_one_of_them(rest, i);
        if s.last().id > highest_id(rest) {
            assert(s[s.len() - 1].id == highest_id(s));
        } else if highest_id(rest) > 0 {
            let k = choose|k: int| 0 <= k < rest.len() && (#[trigger] rest[k]).id == highest_id(rest);
            assert(s[k].id == highest_id(s));
        }
    }
}

} // verus!
