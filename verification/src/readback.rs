//! What saving writes into a file's chunks, reading them gives back.

use crate::bytes::{le4, le8, lemma_le4, lemma_le8, lemma_u32_part, u32_le};
use crate::edit::{
    bext_base, bext_chunk_of, crlf_of, fields_written, lemma_fields, lf_of, start_of,
    unchanged_bext_bytes_stay, EditsView, BEXT_FIELDS, BEXT_SIZE, TIME_REFERENCE,
};
use crate::rename::replaced_of;
use crate::text::trim_of;
use crate::wav::{
    about, adtl_entries, all_entries, all_points, bext_of, capped, cue_count, cue_of, cue_points_of,
    entry_index, first_index, first_of_its_id, info_body_of, info_entries, info_of, label_kept,
    last_about, lemma_first_index, mark_bodies_of, mark_entries, mark_text_of, marker_of,
    markers_of, named_in_region, nul_at, other_entries, packed_all, packed_subchunks_read_back,
    point_bytes, point_of, region_entry, region_index, sort_marks, subchunks_of, text_entry,
    text_index, text_of, zeros, BextView, MarkerView, StoredMarksView, ADTL, DATA, INFO, LABL, LTXT,
    NOTE, RGN,
};
use vstd::prelude::*;
use vstd::utf8::{
    char_is_scalar, char_u32_cast, encode_scalar, encode_utf8, encode_utf8_decode_utf8,
    encode_utf8_valid_utf8, is_scalar, last_continuation_byte, leading_byte_width_1,
    leading_byte_width_2, leading_byte_width_3, leading_byte_width_4, second_last_continuation_byte,
    third_last_continuation_byte,
};

verus! {

/// Whether a text keeps to what a NUL-ended field can hold: no NUL in it and
/// no white space around it.
pub open spec fn plain(s: Seq<char>) -> bool {
    trim_of(s) == s && forall|i: int| 0 <= i < s.len() ==> #[trigger] s[i] != '\0'
}

proof fn lemma_scalar_has_no_nul(c: u32)
    requires
        is_scalar(c),
        c != 0,
    ensures
        forall|i: int| 0 <= i < encode_scalar(c).len() ==> #[trigger] encode_scalar(c)[i] != 0,
{
    assert(c <= 0x7F && c != 0 ==> leading_byte_width_1(c) != 0) by (bit_vector);
    assert(leading_byte_width_2(c) != 0 && leading_byte_width_3(c) != 0 && leading_byte_width_4(c)
        != 0 && last_continuation_byte(c) != 0 && second_last_continuation_byte(c) != 0
        && third_last_continuation_byte(c) != 0) by (bit_vector);
}

proof fn lemma_encoding_has_no_nul(s: Seq<char>)
    requires
        forall|i: int| 0 <= i < s.len() ==> #[trigger] s[i] != '\0',
    ensures
        forall|i: int| 0 <= i < encode_utf8(s).len() ==> #[trigger] encode_utf8(s)[i] != 0,
    decreases s.len(),
{
    if s.len() > 0 {
        let first = encode_scalar(s[0] as u32);
        let rest = s.drop_first();
        assert forall|i: int| 0 <= i < rest.len() implies #[trigger] rest[i] != '\0' by {
            assert(rest[i] == s[i + 1]);
        }
        lemma_encoding_has_no_nul(rest);
        assert(s[0] != '\0');
        char_is_scalar(s[0]);
        char_u32_cast(s[0], s[0] as u32);
        lemma_scalar_has_no_nul(s[0] as u32);
        assert(encode_utf8(s) =~= first + encode_utf8(rest));
    }
}

proof fn lemma_nul_at(b: Seq<u8>, i: int, n: int)
    requires
        0 <= i <= n < b.len(),
        b[n] == 0,
        forall|j: int| i <= j < n ==> #[trigger] b[j] != 0,
    ensures
        nul_at(b, i) == n,
    decreases n - i,
{
    if i < n {
        lemma_nul_at(b, i + 1, n);
    }
}

/// A text that was written with a NUL behind it reads back as it was.
pub proof fn a_written_text_reads_back(s: Seq<char>)
    requires
        plain(s),
    ensures
        text_of(encode_utf8(s) + seq![0u8]) == s,
{
    let e = encode_utf8(s);
    let b = e + seq![0u8];
    lemma_encoding_has_no_nul(s);
    assert forall|j: int| 0 <= j < e.len() implies #[trigger] b[j] != 0 by {
        assert(b[j] == e[j]);
    }
    lemma_nul_at(b, 0, e.len() as int);
    assert(b.take(e.len() as int) =~= e);
    encode_utf8_valid_utf8(s);
    encode_utf8_decode_utf8(s);
}

proof fn lemma_info_entries(entries: Seq<(Seq<u8>, Seq<char>)>, unused: Seq<(Seq<u8>, Seq<u8>)>)
    requires
        forall|i: int| 0 <= i < entries.len() ==> plain((#[trigger] entries[i]).1),
    ensures
        info_entries(entries, unused).len() == entries.len(),
        forall|i: int|
            0 <= i < entries.len() ==> (#[trigger] info_entries(entries, unused)[i]).0
                == entries[i].0 && text_of(info_entries(entries, unused)[i].1) == entries[i].1,
    decreases entries.len(),
{
    if entries.len() > 0 {
        let e = entries[0];
        let rest = entries.skip(1);
        assert forall|i: int| 0 <= i < rest.len() implies plain((#[trigger] rest[i]).1) by {
            assert(rest[i] == entries[i + 1]);
        }
        let same = |u: (Seq<u8>, Seq<u8>)| u.0 == e.0 && text_of(u.1) == e.1;
        lemma_first_index(unused, same, 0);
        let at = entry_index(unused, e);
        assert(at == first_index(unused, same, 0));
        let left = if at < unused.len() {
            unused.remove(at)
        } else {
            unused
        };
        if at >= unused.len() {
            assert(plain(entries[0].1));
            a_written_text_reads_back(e.1);
        }
        lemma_info_entries(rest, left);
        let all = info_entries(entries, unused);
        let behind = info_entries(rest, left);
        assert(all.len() == behind.len() + 1);
        assert forall|i: int| 0 <= i < entries.len() implies (#[trigger] all[i]).0 == entries[i].0
            && text_of(all[i].1) == entries[i].1 by {
            if i > 0 {
                assert(all[i] == behind[i - 1]);
                assert(rest[i - 1] == entries[i]);
            }
        }
    }
}

/// The `LIST/INFO` entries that were written are the ones that are read
/// back, in their order, whatever was stored before.
pub proof fn written_info_reads_back(
    entries: Seq<(Seq<u8>, Seq<char>)>,
    unused: Seq<(Seq<u8>, Seq<u8>)>,
)
    requires
        forall|i: int|
            0 <= i < entries.len() ==> (#[trigger] entries[i]).0.len() == 4 && plain(entries[i].1),
        forall|i: int|
            0 <= i < entries.len() ==> (#[trigger] info_entries(entries, unused)[i]).1.len()
                <= u32::MAX,
    ensures
        info_of(info_body_of(entries, unused).skip(4)) == entries,
{
    let all = info_entries(entries, unused);
    assert forall|i: int| 0 <= i < entries.len() implies plain((#[trigger] entries[i]).1) by {}
    lemma_info_entries(entries, unused);
    assert(info_body_of(entries, unused).skip(4) =~= packed_all(all));
    assert forall|i: int| 0 <= i < all.len() implies (#[trigger] all[i]).0.len() == 4
        && all[i].1.len() <= u32::MAX by {
        assert(entries[i].0.len() == 4);
    }
    packed_subchunks_read_back(all);
    assert forall|i: int| 0 <= i < entries.len() implies #[trigger] info_of(packed_all(all))[i]
        == entries[i] by {
        assert(all[i].0 == entries[i].0);
    }
    assert(info_of(packed_all(all)) =~= entries);
}

/// Whether a stored `INFO` entry is the one that this says.
pub open spec fn says(u: (Seq<u8>, Seq<u8>), e: (Seq<u8>, Seq<char>)) -> bool {
    u.0 == e.0 && text_of(u.1) == e.1
}

/// Stored entries that are passed over, and those that are still to come.
proof fn lemma_info_left_alone(
    entries: Seq<(Seq<u8>, Seq<char>)>,
    passed: Seq<(Seq<u8>, Seq<u8>)>,
    coming: Seq<(Seq<u8>, Seq<u8>)>,
)
    requires
        entries.len() == coming.len(),
        forall|i: int, j: int|
            0 <= i < entries.len() && 0 <= j < coming.len() && !says(coming[i], entries[i])
                ==> !says(#[trigger] coming[j], #[trigger] entries[i]),
        forall|i: int, j: int|
            0 <= i < entries.len() && 0 <= j < passed.len() ==> !says(
                #[trigger] passed[j],
                #[trigger] entries[i],
            ),
        forall|i: int, j: int|
            0 <= i < entries.len() && 0 <= j < coming.len() && says(
                #[trigger] coming[j],
                #[trigger] entries[i],
            ) ==> says(coming[j], entries[j]),
    ensures
        info_entries(entries, passed + coming).len() == entries.len(),
        forall|i: int|
            0 <= i < entries.len() && says(coming[i], entries[i]) ==> #[trigger] info_entries(
                entries,
                passed + coming,
            )[i] == coming[i],
    decreases entries.len(),
{
    if entries.len() > 0 {
        let e = entries[0];
        let all = passed + coming;
        let same = |u: (Seq<u8>, Seq<u8>)| u.0 == e.0 && text_of(u.1) == e.1;
        lemma_first_index(all, same, 0);
        let at = entry_index(all, e);
        assert(at == first_index(all, same, 0));
        let rest = entries.skip(1);
        let later = coming.skip(1);
        assert forall|j: int| 0 <= j < passed.len() implies !same(#[trigger] all[j]) by {
            assert(all[j] == passed[j]);
            assert(!says(passed[j], entries[0]));
        }
        if says(coming[0], e) {
            assert(all[passed.len() as int] == coming[0]);
            assert(same(all[passed.len() as int]));
            assert(at == passed.len());
            assert(all.remove(at) =~= passed + later);
            lemma_info_left_alone(rest, passed, later);
            let behind = info_entries(rest, passed + later);
            assert(info_entries(entries, all) =~= seq![coming[0]] + behind);
            assert forall|i: int|
                0 <= i < entries.len() && says(coming[i], entries[i]) implies #[trigger] info_entries(
                entries,
                all,
            )[i] == coming[i] by {
                if i > 0 {
                    assert(rest[i - 1] == entries[i] && later[i - 1] == coming[i]);
                    assert(behind[i - 1] == later[i - 1]);
                }
            }
        } else {
            assert forall|j: int| 0 <= j < all.len() implies !same(#[trigger] all[j]) by {
                if j >= passed.len() {
                    assert(all[j] == coming[j - passed.len()]);
                    assert(!says(coming[j - passed.len()], entries[0]));
                }
            }
            assert(at >= all.len());
            let more = passed.push(coming[0]);
            assert(all =~= more + later);
            assert forall|i: int, j: int|
                0 <= i < rest.len() && 0 <= j < more.len() implies !says(
                #[trigger] more[j],
                #[trigger] rest[i],
            ) by {
                assert(rest[i] == entries[i + 1]);
                if j < passed.len() {
                    assert(more[j] == passed[j]);
                } else {
                    assert(!says(coming[0], entries[i + 1]));
                }
            }
            lemma_info_left_alone(rest, more, later);
            let behind = info_entries(rest, more + later);
            assert forall|i: int|
                0 <= i < entries.len() && says(coming[i], entries[i]) implies #[trigger] info_entries(
                entries,
                all,
            )[i] == coming[i] by {
                assert(i > 0);
                assert(rest[i - 1] == entries[i] && later[i - 1] == coming[i]);
                assert(behind[i - 1] == later[i - 1]);
            }
        }
    }
}

/// `INFO` entries that were left alone are written as they were stored, where
/// others were changed to what is not stored and none of those left alone
/// says what one that was changed used to say.
pub proof fn untouched_info_is_written_as_stored(
    entries: Seq<(Seq<u8>, Seq<char>)>,
    stored: Seq<(Seq<u8>, Seq<u8>)>,
)
    requires
        entries.len() == stored.len(),
        forall|i: int, j: int|
            0 <= i < entries.len() && 0 <= j < stored.len() && !says(stored[i], entries[i])
                ==> !says(#[trigger] stored[j], #[trigger] entries[i]),
        forall|i: int, j: int|
            0 <= i < entries.len() && 0 <= j < stored.len() && says(
                #[trigger] stored[j],
                #[trigger] entries[i],
            ) ==> says(stored[j], entries[j]),
    ensures
        info_entries(entries, stored).len() == entries.len(),
        forall|i: int|
            0 <= i < entries.len() && says(stored[i], entries[i]) ==> #[trigger] info_entries(
                entries,
                stored,
            )[i] == stored[i],
{
    let none = Seq::<(Seq<u8>, Seq<u8>)>::empty();
    assert(none + stored =~= stored);
    lemma_info_left_alone(entries, none, stored);
}

/// A cue point that still has its place is written as it was stored.
pub proof fn an_untouched_cue_point_is_written_as_stored(
    m: MarkerView,
    points: Seq<Seq<u8>>,
    i: int,
)
    requires
        0 <= i < points.len(),
        point_of(points[i]) == (m.id, capped(m.frame)),
        forall|j: int|
            0 <= j < i ==> point_of(#[trigger] points[j]) != (m.id, capped(m.frame)),
    ensures
        point_bytes(m, points) == points[i],
{
    let same = |p: Seq<u8>| point_of(p) == (m.id, capped(m.frame));
    lemma_first_index(points, same, 0);
    let at = first_index(points, same, 0);
    assert(same(points[i]));
    if at < i {
        assert(same(points[at]));
    }
}

/// A name or a note that still says the same is written as it was stored.
pub proof fn an_untouched_text_is_written_as_stored(
    kind: Seq<u8>,
    id: u32,
    value: Seq<char>,
    stored: Seq<(Seq<u8>, Seq<u8>)>,
    i: int,
    elsewhere: bool,
)
    requires
        value.len() > 0,
        0 <= i < stored.len(),
        about(stored[i], kind, id, 4) && mark_text_of(kind, stored[i].1) == value,
        forall|j: int|
            0 <= j < i ==> !(about(#[trigger] stored[j], kind, id, 4) && mark_text_of(
                kind,
                stored[j].1,
            ) == value),
    ensures
        text_entry(kind, id, value, stored, elsewhere) == seq![stored[i]],
{
    let same = |e: (Seq<u8>, Seq<u8>)|
        about(e, kind, id, 4) && mark_text_of(kind, e.1) == value;
    lemma_first_index(stored, same, 0);
    let at = first_index(stored, same, 0);
    assert(at == text_index(stored, kind, id, value));
    assert(same(stored[i]));
    if at < i {
        assert(same(stored[at]));
    }
    assert(at == i);
}

/// A region that still has its length, and no other name than the mark's, is
/// written as it was stored.
pub proof fn an_untouched_region_is_written_as_stored(
    m: MarkerView,
    stored: Seq<(Seq<u8>, Seq<u8>)>,
    i: int,
)
    requires
        m.length > 0,
        0 <= i < stored.len(),
        about(stored[i], LTXT@, m.id, 8) && u32_le(stored[i].1, 4) == capped(m.length),
        mark_text_of(LTXT@, stored[i].1).len() == 0 || mark_text_of(LTXT@, stored[i].1) == m.label,
        forall|j: int| 0 <= j < i ==> !about(#[trigger] stored[j], LTXT@, m.id, 8),
    ensures
        region_entry(m, stored) == seq![stored[i]],
{
    let same = |e: (Seq<u8>, Seq<u8>)|
        about(e, LTXT@, m.id, 8) && u32_le(e.1, 4) == capped(m.length) && (mark_text_of(
            LTXT@,
            e.1,
        ).len() == 0 || mark_text_of(LTXT@, e.1) == m.label || label_kept(m, stored));
    lemma_first_index(stored, same, 0);
    let at = first_index(stored, same, 0);
    assert(at == region_index(m, stored));
    assert(same(stored[i]));
    if at < i {
        assert(same(stored[at]));
    }
    assert(at == i);
}

/// Stored subchunks of other kinds than the marks' own are carried over.
pub proof fn other_subchunks_are_carried_over(
    ms: Seq<MarkerView>,
    st: StoredMarksView,
    e: (Seq<u8>, Seq<u8>),
)
    requires
        st.adtl.contains(e),
        e.0 != LABL@ && e.0 != NOTE@ && e.0 != LTXT@,
    ensures
        adtl_entries(ms, st).contains(e),
{
    lemma_others_are_kept(st.adtl, e);
    let others = other_entries(st.adtl);
    let i = choose|i: int| 0 <= i < others.len() && others[i] == e;
    let all = all_entries(ms, st.adtl);
    assert((all + others)[all.len() + i] == e);
}

proof fn lemma_others_are_kept(entries: Seq<(Seq<u8>, Seq<u8>)>, e: (Seq<u8>, Seq<u8>))
    requires
        entries.contains(e),
        e.0 != LABL@ && e.0 != NOTE@ && e.0 != LTXT@,
    ensures
        other_entries(entries).contains(e),
    decreases entries.len(),
{
    let rest = entries.drop_last();
    let i = choose|i: int| 0 <= i < entries.len() && entries[i] == e;
    if i == entries.len() - 1 {
        assert(other_entries(entries).last() == e);
    } else {
        assert(rest[i] == e);
        lemma_others_are_kept(rest, e);
        let kept = other_entries(rest);
        let j = choose|j: int| 0 <= j < kept.len() && kept[j] == e;
        assert(other_entries(entries)[j] == e);
    }
}

/// The last subchunk about a cue point among two lots of them.
pub proof fn lemma_last_about_joined(
    a: Seq<(Seq<u8>, Seq<u8>)>,
    b: Seq<(Seq<u8>, Seq<u8>)>,
    kind: Seq<u8>,
    id: u32,
    room: int,
)
    ensures
        last_about(a + b, kind, id, room) == match last_about(b, kind, id, room) {
            Some(body) => Some(body),
            None => last_about(a, kind, id, room),
        },
    decreases b.len(),
{
    if b.len() == 0 {
        assert(a + b =~= a);
    } else {
        assert((a + b).last() == b.last());
        assert((a + b).drop_last() =~= a + b.drop_last());
        lemma_last_about_joined(a, b.drop_last(), kind, id, room);
    }
}

pub proof fn lemma_kinds()
    ensures
        LABL@ != LTXT@,
        LABL@ != NOTE@,
        LTXT@ != NOTE@,
        LABL@.len() == 4,
        LTXT@.len() == 4,
        NOTE@.len() == 4,
{
    assert(LABL@[1] == 0x61);
    assert(LTXT@[1] == 0x74);
    assert(NOTE@[1] == 0x6F);
}

/// A subchunk's body that starts with a cue id.
pub proof fn lemma_id_of(id: u32, rest: Seq<u8>)
    ensures
        u32_le(le4(id) + rest, 0) == id,
        (le4(id) + rest).len() == 4 + rest.len(),
        (le4(id) + rest).skip(4) == rest,
{
    lemma_le4(id);
    let b = le4(id) + rest;
    assert(b.subrange(0, 4) =~= le4(id));
    lemma_u32_part(b, 0, 4, 0);
    assert(b.skip(4) =~= rest);
}

/// What `text_entry` puts into `LIST/adtl`: one subchunk of its kind about
/// the cue point, which reads as the text, or none.
proof fn lemma_text_entry(
    kind: Seq<u8>,
    id: u32,
    value: Seq<char>,
    entries: Seq<(Seq<u8>, Seq<u8>)>,
    elsewhere: bool,
)
    requires
        kind != LTXT@,
        plain(value),
    ensures
        ({
            let r = text_entry(kind, id, value, entries, elsewhere);
            &&& r.len() <= 1
            &&& r.len() == 1 ==> r[0].0 == kind && about(r[0], kind, id, 4) && mark_text_of(
                kind,
                r[0].1,
            ) == value && value.len() > 0
            &&& r.len() == 0 ==> value.len() == 0 || elsewhere
        }),
{
    let p = |e: (Seq<u8>, Seq<u8>)| about(e, kind, id, 4) && mark_text_of(kind, e.1) == value;
    lemma_first_index(entries, p, 0);
    assert(text_index(entries, kind, id, value) == first_index(entries, p, 0));
    let tail = encode_utf8(value) + seq![0u8];
    lemma_id_of(id, tail);
    assert(le4(id) + encode_utf8(value) + seq![0u8] =~= le4(id) + tail);
    a_written_text_reads_back(value);
}

/// What `region_entry` puts into `LIST/adtl`.
proof fn lemma_region_entry(m: MarkerView, entries: Seq<(Seq<u8>, Seq<u8>)>)
    requires
        m.length <= u32::MAX,
    ensures
        ({
            let r = region_entry(m, entries);
            &&& r.len() == if m.length == 0 {
                0nat
            } else {
                1
            }
            &&& r.len() == 1 ==> {
                let named = mark_text_of(LTXT@, r[0].1);
                &&& r[0].0 == LTXT@
                &&& about(r[0], LTXT@, m.id, 8)
                &&& u32_le(r[0].1, 4) == m.length
                &&& named.len() == 0 || named == m.label || text_index(
                    entries,
                    LABL@,
                    m.id,
                    m.label,
                ) < entries.len() && m.label.len() > 0
                &&& named_in_region(m, entries) ==> named == m.label
            }
            &&& r.len() == 0 ==> !named_in_region(m, entries)
        }),
{
    let p = |e: (Seq<u8>, Seq<u8>)|
        about(e, LTXT@, m.id, 8) && u32_le(e.1, 4) == capped(m.length) && (mark_text_of(
            LTXT@,
            e.1,
        ).len() == 0 || mark_text_of(LTXT@, e.1) == m.label || label_kept(m, entries));
    lemma_first_index(entries, p, 0);
    assert(region_index(m, entries) == first_index(entries, p, 0));
    let rest = le4(capped(m.length)) + RGN@ + zeros(8);
    let body = le4(m.id) + le4(capped(m.length)) + RGN@ + zeros(8);
    assert(body =~= le4(m.id) + rest);
    lemma_id_of(m.id, rest);
    lemma_id_of(capped(m.length), RGN@ + zeros(8));
    assert(rest =~= le4(capped(m.length)) + (RGN@ + zeros(8)));
    lemma_u32_part(body, 4, body.len() as int, 0);
    assert(body.subrange(4, body.len() as int) =~= rest);
    assert(body.len() == 20);
    let none = body.skip(20);
    assert(none =~= Seq::<u8>::empty());
    lemma_no_text();
}

/// No bytes read as no text.
pub proof fn lemma_no_text()
    ensures
        text_of(Seq::<u8>::empty()) == Seq::<char>::empty(),
{
    let none = Seq::<char>::empty();
    assert(encode_utf8(none) =~= Seq::<u8>::empty());
    encode_utf8_valid_utf8(none);
    encode_utf8_decode_utf8(none);
    let b = Seq::<u8>::empty();
    assert(b.take(nul_at(b, 0)) =~= b);
    assert(trim_of(none) =~= none);
}

/// What `mark_entries` says of its own cue point, and that it says nothing
/// of another.
proof fn lemma_mark_entries(m: MarkerView, entries: Seq<(Seq<u8>, Seq<u8>)>)
    requires
        m.length <= u32::MAX,
        plain(m.label),
        plain(m.note),
    ensures
        ({
            let all = mark_entries(m, entries);
            let region = last_about(all, LTXT@, m.id, 8);
            let label = last_about(all, LABL@, m.id, 4);
            let note = last_about(all, NOTE@, m.id, 4);
            let named = match region {
                Some(body) => mark_text_of(LTXT@, body),
                None => Seq::empty(),
            };
            &&& m.length == match region {
                Some(body) => u32_le(body, 4),
                None => 0,
            }
            &&& m.label == match label {
                Some(body) => if mark_text_of(LABL@, body).len() == 0 {
                    named
                } else {
                    mark_text_of(LABL@, body)
                },
                None => named,
            }
            &&& m.note == match note {
                Some(body) => mark_text_of(NOTE@, body),
                None => Seq::empty(),
            }
        }),
        forall|kind: Seq<u8>, id: u32, room: int|
            id != m.id ==> #[trigger] last_about(mark_entries(m, entries), kind, id, room) is None,
{
    lemma_kinds();
    lemma_region_entry(m, entries);
    lemma_text_entry(LABL@, m.id, m.label, entries, named_in_region(m, entries));
    lemma_text_entry(NOTE@, m.id, m.note, entries, false);
    let r = region_entry(m, entries);
    let l = text_entry(LABL@, m.id, m.label, entries, named_in_region(m, entries));
    let n = text_entry(NOTE@, m.id, m.note, entries, false);
    lemma_about_of_three(r, l, n, LTXT@, m.id, 8);
    lemma_about_of_three(r, l, n, LABL@, m.id, 4);
    lemma_about_of_three(r, l, n, NOTE@, m.id, 4);
    if text_index(entries, LABL@, m.id, m.label) < entries.len() && m.label.len() > 0 {
        assert(l.len() == 1);
    }
    assert(m.label.len() == 0 ==> m.label =~= Seq::empty());
    assert(m.note.len() == 0 ==> m.note =~= Seq::empty());
    if m.length > 0 && mark_text_of(LTXT@, r[0].1).len() == 0 {
        assert(mark_text_of(LTXT@, r[0].1) =~= Seq::empty());
    }
    assert forall|kind: Seq<u8>, id: u32, room: int| id != m.id implies #[trigger] last_about(
        mark_entries(m, entries),
        kind,
        id,
        room,
    ) is None by {
        lemma_about_of_three(r, l, n, kind, id, room);
    }
}

/// The last subchunk about a cue point among three lots of one each at most.
proof fn lemma_about_of_three(
    a: Seq<(Seq<u8>, Seq<u8>)>,
    b: Seq<(Seq<u8>, Seq<u8>)>,
    c: Seq<(Seq<u8>, Seq<u8>)>,
    kind: Seq<u8>,
    id: u32,
    room: int,
)
    requires
        a.len() <= 1,
        b.len() <= 1,
        c.len() <= 1,
    ensures
        last_about(a + b + c, kind, id, room) == if c.len() == 1 && about(c[0], kind, id, room) {
            Some(c[0].1)
        } else if b.len() == 1 && about(b[0], kind, id, room) {
            Some(b[0].1)
        } else if a.len() == 1 && about(a[0], kind, id, room) {
            Some(a[0].1)
        } else {
            None
        },
{
    lemma_last_about_joined(a + b, c, kind, id, room);
    lemma_last_about_joined(a, b, kind, id, room);
    reveal_with_fuel(last_about, 2);
}

/// What the subchunks of all marks say of one cue point is what those of
/// its own mark say, and where no mark has the id, nothing.
proof fn lemma_all_entries(
    ms: Seq<MarkerView>,
    entries: Seq<(Seq<u8>, Seq<u8>)>,
    kind: Seq<u8>,
    id: u32,
    room: int,
)
    requires
        forall|i: int|
            0 <= i < ms.len() ==> (#[trigger] ms[i]).length <= u32::MAX && plain(ms[i].label)
                && plain(ms[i].note),
        forall|i: int, j: int| 0 <= i < j < ms.len() ==> (#[trigger] ms[i]).id != (#[trigger] ms[j]).id,
    ensures
        forall|i: int|
            0 <= i < ms.len() && #[trigger] ms[i].id == id ==> last_about(
                all_entries(ms, entries),
                kind,
                id,
                room,
            ) == last_about(mark_entries(ms[i], entries), kind, id, room),
        (forall|i: int| 0 <= i < ms.len() ==> (#[trigger] ms[i]).id != id) ==> last_about(
            all_entries(ms, entries),
            kind,
            id,
            room,
        ) is None,
    decreases ms.len(),
{
    if ms.len() > 0 {
        let head = ms.drop_last();
        let m = ms.last();
        assert forall|i: int| 0 <= i < head.len() implies (#[trigger] head[i]).length <= u32::MAX
            && plain(head[i].label) && plain(head[i].note) by {
            assert(head[i] == ms[i]);
        }
        lemma_all_entries(head, entries, kind, id, room);
        assert(m == ms[ms.len() - 1]);
        lemma_mark_entries(m, entries);
        lemma_last_about_joined(
            all_entries(head, entries),
            mark_entries(m, entries),
            kind,
            id,
            room,
        );
        assert forall|i: int| 0 <= i < ms.len() && #[trigger] ms[i].id == id implies last_about(
            all_entries(ms, entries),
            kind,
            id,
            room,
        ) == last_about(mark_entries(ms[i], entries), kind, id, room) by {
            if i < head.len() {
                assert(head[i].id == id);
                assert(m.id != id);
            } else {
                assert forall|j: int| 0 <= j < head.len() implies (#[trigger] head[j]).id != id by {
                    assert(head[j] == ms[j]);
                }
            }
        }
        if forall|i: int| 0 <= i < ms.len() ==> (#[trigger] ms[i]).id != id {
            assert(m.id != id);
            assert forall|j: int| 0 <= j < head.len() implies (#[trigger] head[j]).id != id by {
                assert(head[j] == ms[j]);
            }
        }
    }
}

proof fn lemma_others_say_nothing(
    entries: Seq<(Seq<u8>, Seq<u8>)>,
    kind: Seq<u8>,
    id: u32,
    room: int,
)
    requires
        kind == LABL@ || kind == NOTE@ || kind == LTXT@,
    ensures
        last_about(other_entries(entries), kind, id, room) is None,
    decreases entries.len(),
{
    if entries.len() > 0 {
        lemma_others_say_nothing(entries.drop_last(), kind, id, room);
        let head = other_entries(entries.drop_last());
        let last = entries.last();
        assert(head.push(last).drop_last() =~= head);
    }
}

/// A mark's cue point takes up its room and reads as its id and frame.
proof fn lemma_point_bytes(m: MarkerView, points: Seq<Seq<u8>>)
    requires
        m.frame <= u32::MAX,
        forall|i: int| 0 <= i < points.len() ==> (#[trigger] points[i]).len() == 24,
    ensures
        point_bytes(m, points).len() == 24,
        point_of(point_bytes(m, points)) == (m.id, m.frame as u32),
{
    let p = |p: Seq<u8>| point_of(p) == (m.id, capped(m.frame));
    lemma_first_index(points, p, 0);
    let at = first_index(points, p, 0);
    if at < points.len() {
        assert(points[at].len() == 24);
    } else {
        let frame = le4(capped(m.frame));
        let b = le4(m.id) + frame + DATA@ + zeros(8) + frame;
        let rest = frame + DATA@ + zeros(8) + frame;
        assert(b =~= le4(m.id) + rest);
        lemma_id_of(m.id, rest);
        lemma_le4(capped(m.frame));
        assert(b.subrange(4, 8) =~= frame);
        assert(b.subrange(20, 24) =~= frame);
        lemma_u32_part(b, 4, 8, 0);
        lemma_u32_part(b, 20, 24, 0);
    }
}

pub proof fn lemma_all_points(ms: Seq<MarkerView>, points: Seq<Seq<u8>>)
    requires
        forall|i: int| 0 <= i < ms.len() ==> (#[trigger] ms[i]).frame <= u32::MAX,
        forall|i: int| 0 <= i < points.len() ==> (#[trigger] points[i]).len() == 24,
    ensures
        all_points(ms, points).len() == 24 * ms.len(),
        forall|i: int|
            #![trigger ms[i]]
            0 <= i < ms.len() ==> all_points(ms, points).subrange(24 * i, 24 * i + 24)
                == point_bytes(ms[i], points),
    decreases ms.len(),
{
    if ms.len() > 0 {
        let head = ms.drop_last();
        assert forall|i: int| 0 <= i < head.len() implies (#[trigger] head[i]).frame
            <= u32::MAX by {
            assert(head[i] == ms[i]);
        }
        lemma_all_points(head, points);
        assert(ms.last() == ms[ms.len() - 1]);
        lemma_point_bytes(ms.last(), points);
        let all = all_points(ms, points);
        let front = all_points(head, points);
        assert forall|i: int| #![trigger ms[i]] 0 <= i < ms.len() implies all.subrange(
            24 * i,
            24 * i + 24,
        ) == point_bytes(ms[i], points) by {
            if i < head.len() {
                assert(head[i] == ms[i]);
                assert(all.subrange(24 * i, 24 * i + 24) =~= front.subrange(24 * i, 24 * i + 24));
            } else {
                assert(all.subrange(24 * i, 24 * i + 24) =~= point_bytes(ms.last(), points));
            }
        }
    }
}

/// The cue points that were written for `ms` are read back as their ids and
/// frames.
proof fn lemma_cue_points(ms: Seq<MarkerView>, points: Seq<Seq<u8>>)
    requires
        ms.len() <= u32::MAX,
        forall|i: int| 0 <= i < ms.len() ==> (#[trigger] ms[i]).frame <= u32::MAX,
        forall|i: int| 0 <= i < points.len() ==> (#[trigger] points[i]).len() == 24,
    ensures
        cue_of(le4(ms.len() as u32) + all_points(ms, points)) == ms.map_values(
            |m: MarkerView| (m.id, m.frame as u32),
        ),
{
    let tail = all_points(ms, points);
    let b = le4(ms.len() as u32) + tail;
    lemma_all_points(ms, points);
    lemma_id_of(ms.len() as u32, tail);
    assert(cue_count(b) == ms.len());
    let read = cue_of(b);
    assert forall|i: int| 0 <= i < ms.len() implies #[trigger] read[i] == (
        ms[i].id,
        ms[i].frame as u32,
    ) by {
        assert(cue_points_of(b)[i] =~= tail.subrange(24 * i, 24 * i + 24));
        lemma_point_bytes(ms[i], points);
    }
    assert(read =~= ms.map_values(|m: MarkerView| (m.id, m.frame as u32)));
}

/// Whether subchunks have ids of four bytes.
pub open spec fn named_in_four(s: Seq<(Seq<u8>, Seq<u8>)>) -> bool {
    forall|i: int| 0 <= i < s.len() ==> (#[trigger] s[i]).0.len() == 4
}

pub proof fn lemma_named_add(a: Seq<(Seq<u8>, Seq<u8>)>, b: Seq<(Seq<u8>, Seq<u8>)>)
    requires
        named_in_four(a),
        named_in_four(b),
    ensures
        named_in_four(a + b),
{
    assert forall|i: int| 0 <= i < (a + b).len() implies (#[trigger] (a + b)[i]).0.len() == 4 by {
        if i < a.len() {
            assert((a + b)[i] == a[i]);
        } else {
            assert((a + b)[i] == b[i - a.len()]);
        }
    }
}

pub proof fn lemma_others_named(entries: Seq<(Seq<u8>, Seq<u8>)>)
    requires
        named_in_four(entries),
    ensures
        named_in_four(other_entries(entries)),
    decreases entries.len(),
{
    if entries.len() > 0 {
        let rest = entries.drop_last();
        assert forall|i: int| 0 <= i < rest.len() implies (#[trigger] rest[i]).0.len() == 4 by {
            assert(rest[i] == entries[i]);
        }
        lemma_others_named(rest);
        assert(entries.last() == entries[entries.len() - 1]);
        let one = seq![entries.last()];
        assert(named_in_four(one));
        lemma_named_add(other_entries(rest), one);
        assert(other_entries(rest).push(entries.last()) =~= other_entries(rest) + one);
    }
}

pub proof fn lemma_marks_named(ms: Seq<MarkerView>, entries: Seq<(Seq<u8>, Seq<u8>)>)
    ensures
        named_in_four(all_entries(ms, entries)),
    decreases ms.len(),
{
    if ms.len() > 0 {
        let m = ms.last();
        lemma_marks_named(ms.drop_last(), entries);
        let a = region_entry(m, entries);
        let b = text_entry(LABL@, m.id, m.label, entries, named_in_region(m, entries));
        let c = text_entry(NOTE@, m.id, m.note, entries, false);
        assert(LTXT@.len() == 4 && LABL@.len() == 4 && NOTE@.len() == 4);
        assert(named_in_four(a) && named_in_four(b) && named_in_four(c));
        lemma_named_add(a, b);
        lemma_named_add(a + b, c);
        lemma_named_add(all_entries(ms.drop_last(), entries), mark_entries(m, entries));
    }
}

/// The marks that were written are the ones that are read back, in order of
/// their place, whatever was stored before: where each has an id of its own
/// and a place and length that four bytes hold.
pub proof fn written_marks_read_back(ms: Seq<MarkerView>, st: StoredMarksView)
    requires
        ms.len() <= u32::MAX,
        forall|i: int|
            0 <= i < ms.len() ==> (#[trigger] ms[i]).frame <= u32::MAX && ms[i].length <= u32::MAX
                && plain(ms[i].label) && plain(ms[i].note),
        forall|i: int, j: int| 0 <= i < j < ms.len() ==> (#[trigger] ms[i]).id != (#[trigger] ms[j]).id,
        st.whole(),
        forall|i: int|
            0 <= i < adtl_entries(ms, st).len() ==> (#[trigger] adtl_entries(ms, st)[i]).1.len()
                <= u32::MAX,
    ensures
        markers_of(
            cue_of(mark_bodies_of(ms, st).0),
            match mark_bodies_of(ms, st).1 {
                Some(body) => subchunks_of(body.skip(4)),
                None => Seq::empty(),
            },
        ) == sort_marks(ms),
{
    let points = cue_of(mark_bodies_of(ms, st).0);
    let all = adtl_entries(ms, st);
    let entries = match mark_bodies_of(ms, st).1 {
        Some(body) => subchunks_of(body.skip(4)),
        None => Seq::empty(),
    };
    lemma_cue_points(ms, st.points);
    lemma_marks_named(ms, st.adtl);
    lemma_others_named(st.adtl);
    lemma_named_add(all_entries(ms, st.adtl), other_entries(st.adtl));
    packed_subchunks_read_back(all);
    if all.len() > 0 {
        assert((ADTL@ + packed_all(all)).skip(4) =~= packed_all(all));
    }
    assert(entries =~= all);
    assert forall|i: int| 0 <= i < ms.len() implies #[trigger] marker_of(points, entries, i)
        == ms[i] by {
        let m = ms[i];
        assert(points[i] == (m.id, m.frame as u32));
        assert forall|j: int| 0 <= j < i implies (#[trigger] points[j]).0 != points[i].0 by {
            assert(points[j].0 == ms[j].id);
        }
        assert(first_of_its_id(points, i));
        lemma_mark_entries(m, st.adtl);
        lemma_what_is_said(ms, st.adtl, i, LTXT@, 8);
        lemma_what_is_said(ms, st.adtl, i, LABL@, 4);
        lemma_what_is_said(ms, st.adtl, i, NOTE@, 4);
    }
    assert(Seq::new(points.len(), |i: int| marker_of(points, entries, i)) =~= ms);
}

proof fn lemma_what_is_said(
    ms: Seq<MarkerView>,
    entries: Seq<(Seq<u8>, Seq<u8>)>,
    i: int,
    kind: Seq<u8>,
    room: int,
)
    requires
        0 <= i < ms.len(),
        kind == LABL@ || kind == NOTE@ || kind == LTXT@,
        forall|i: int|
            0 <= i < ms.len() ==> (#[trigger] ms[i]).length <= u32::MAX && plain(ms[i].label)
                && plain(ms[i].note),
        forall|i: int, j: int| 0 <= i < j < ms.len() ==> (#[trigger] ms[i]).id != (#[trigger] ms[j]).id,
    ensures
        last_about(all_entries(ms, entries) + other_entries(entries), kind, ms[i].id, room)
            == last_about(mark_entries(ms[i], entries), kind, ms[i].id, room),
{
    let id = ms[i].id;
    lemma_last_about_joined(all_entries(ms, entries), other_entries(entries), kind, id, room);
    lemma_others_say_nothing(entries, kind, id, room);
    lemma_all_entries(ms, entries, kind, id, room);
}

proof fn lemma_replacing_leaves_none(s: Seq<char>)
    ensures
        !replaced_of(s, seq!['\r'], seq!['\n']).contains('\r'),
    decreases s.len(),
{
    let cr = seq!['\r'];
    let lf = seq!['\n'];
    let r = replaced_of(s, cr, lf);
    if s.len() > 0 {
        lemma_replacing_leaves_none(s.skip(1));
        let rest = replaced_of(s.skip(1), cr, lf);
        assert(r.skip(1) =~= rest);
        if s[0] == '\r' {
            assert(s.take(1) =~= cr);
        } else {
            assert(s.take(1)[0] != cr[0]);
        }
        assert(r[0] != '\r');
        assert forall|i: int| 0 <= i < r.len() implies r[i] != '\r' by {
            if i > 0 {
                assert(r[i] == rest[i - 1]);
                assert(rest.contains(rest[i - 1]));
            }
        }
    }
}

proof fn lemma_nothing_to_replace(s: Seq<char>)
    requires
        !s.contains('\r'),
    ensures
        replaced_of(s, seq!['\r'], seq!['\n']) == s,
    decreases s.len(),
{
    if s.len() > 0 {
        assert(s.contains(s[0]));
        assert(s.take(1)[0] != seq!['\r'][0]);
        assert forall|i: int| 0 <= i < s.skip(1).len() implies s.skip(1)[i] != '\r' by {
            assert(s.contains(s[i + 1]));
        }
        lemma_nothing_to_replace(s.skip(1));
        assert(seq![s[0]] + s.skip(1) =~= s);
    }
}

proof fn lemma_ends_there_and_back(s: Seq<char>)
    requires
        !s.contains('\r'),
    ensures
        replaced_of(
            replaced_of(s, seq!['\n'], seq!['\r', '\n']),
            seq!['\r', '\n'],
            seq!['\n'],
        ) == s,
    decreases s.len(),
{
    let lf = seq!['\n'];
    let crlf = seq!['\r', '\n'];
    if s.len() > 0 {
        let rest = s.skip(1);
        assert(s.contains(s[0]));
        assert forall|i: int| 0 <= i < rest.len() implies rest[i] != '\r' by {
            assert(s.contains(s[i + 1]));
        }
        lemma_ends_there_and_back(rest);
        let r = replaced_of(rest, lf, crlf);
        let all = replaced_of(s, lf, crlf);
        if s[0] == '\n' {
            assert(s.take(1) =~= lf);
            assert(all == crlf + r);
            assert(all.take(2) =~= crlf);
            assert(all.skip(2) =~= r);
            assert(lf + rest =~= s);
        } else {
            assert(s.take(1)[0] != lf[0]);
            assert(all == seq![s[0]] + r);
            assert(all.skip(1) =~= r);
            if all.len() >= 2 {
                assert(all.take(2)[0] != crlf[0]);
            } else {
                assert(replaced_of(r, crlf, lf) =~= rest);
            }
            assert(seq![s[0]] + rest =~= s);
        }
    }
}

/// Line ends that were written show as they did before.
pub proof fn written_line_ends_show_as_before(s: Seq<char>)
    ensures
        lf_of(crlf_of(s)) == lf_of(s),
{
    lemma_replacing_leaves_none(replaced_of(s, seq!['\r', '\n'], seq!['\n']));
    lemma_ends_there_and_back(lf_of(s));
    lemma_nothing_to_replace(lf_of(s));
}

/// A text with nothing but NULs behind it reads back as it was.
pub proof fn lemma_padded_text(s: Seq<char>, n: nat)
    requires
        plain(s),
    ensures
        text_of(encode_utf8(s) + zeros(n)) == s,
{
    let e = encode_utf8(s);
    let b = e + zeros(n);
    lemma_encoding_has_no_nul(s);
    assert forall|j: int| 0 <= j < e.len() implies #[trigger] b[j] != 0 by {
        assert(b[j] == e[j]);
    }
    if n > 0 {
        lemma_nul_at(b, 0, e.len() as int);
    } else {
        lemma_no_nul(b, 0);
    }
    assert(b.take(e.len() as int) =~= e);
    encode_utf8_valid_utf8(s);
    encode_utf8_decode_utf8(s);
}

proof fn lemma_no_nul(b: Seq<u8>, i: int)
    requires
        0 <= i <= b.len(),
        forall|j: int| i <= j < b.len() ==> #[trigger] b[j] != 0,
    ensures
        nul_at(b, i) == b.len(),
    decreases b.len() - i,
{
    if i < b.len() {
        lemma_no_nul(b, i + 1);
    }
}

/// A text with no NUL in it that is written as it is reads back trimmed.
pub proof fn lemma_text_without_nul(s: Seq<char>)
    requires
        forall|i: int| 0 <= i < s.len() ==> #[trigger] s[i] != '\0',
    ensures
        text_of(encode_utf8(s)) == trim_of(s),
{
    let e = encode_utf8(s);
    lemma_encoding_has_no_nul(s);
    lemma_no_nul(e, 0);
    assert(e.take(e.len() as int) =~= e);
    encode_utf8_valid_utf8(s);
    encode_utf8_decode_utf8(s);
}

/// The texts of a Broadcast WAV chunk in the order of its fields.
pub open spec fn field_texts(b: BextView) -> Seq<Seq<char>> {
    seq![
        b.description,
        b.originator,
        b.originator_reference,
        b.origination_date,
        b.origination_time,
    ]
}

/// What stands in a field that was written.
proof fn lemma_field_written(
    new: Seq<Seq<char>>,
    old: Seq<Seq<char>>,
    n: int,
    raw: Seq<u8>,
    k: int,
)
    requires
        0 <= k < n <= 5,
        raw.len() >= BEXT_SIZE,
        fields_written(new, old, n, raw) is Ok,
        new[k] != old[k],
    ensures
        ({
            let done = fields_written(new, old, n, raw)->Ok_0;
            let text = encode_utf8(crlf_of(new[k]));
            let (label, start, end) = BEXT_FIELDS@[k];
            &&& done.len() == raw.len()
            &&& start <= end <= TIME_REFERENCE
            &&& text.len() <= end - start
            &&& done.subrange(start as int, end as int) == text + zeros(
                (end - start - text.len()) as nat,
            )
        }),
    decreases n,
{
    lemma_length_kept(new, old, n, raw);
    lemma_length_kept(new, old, n - 1, raw);
    lemma_places();
    let before = fields_written(new, old, n - 1, raw)->Ok_0;
    let done = fields_written(new, old, n, raw)->Ok_0;
    let (label, start, end) = BEXT_FIELDS@[k];
    if k == n - 1 {
        let text = encode_utf8(crlf_of(new[k]));
        assert(done.subrange(start as int, end as int) =~= text + zeros(
            (end - start - text.len()) as nat,
        ));
    } else {
        lemma_field_written(new, old, n - 1, raw, k);
        assert(done.subrange(start as int, end as int) =~= before.subrange(
            start as int,
            end as int,
        ));
    }
}

proof fn lemma_length_kept(new: Seq<Seq<char>>, old: Seq<Seq<char>>, n: int, raw: Seq<u8>)
    requires
        0 <= n <= 5,
        raw.len() >= BEXT_SIZE,
        fields_written(new, old, n, raw) is Ok,
    ensures
        fields_written(new, old, n, raw)->Ok_0.len() == raw.len(),
    decreases n,
{
    if n > 0 {
        lemma_length_kept(new, old, n - 1, raw);
        lemma_fields(n - 1);
    }
}

/// Where the fields lie, one behind another.
proof fn lemma_places()
    ensures
        BEXT_FIELDS@[0].1 == 0 && BEXT_FIELDS@[0].2 == 256,
        BEXT_FIELDS@[1].1 == 256 && BEXT_FIELDS@[1].2 == 288,
        BEXT_FIELDS@[2].1 == 288 && BEXT_FIELDS@[2].2 == 320,
        BEXT_FIELDS@[3].1 == 320 && BEXT_FIELDS@[3].2 == 330,
        BEXT_FIELDS@[4].1 == 330 && BEXT_FIELDS@[4].2 == 338,
{
}

/// A Broadcast WAV chunk that was written reads back with each changed text
/// as it was set, in its line ends, and with the start that was set.
pub proof fn written_bext_reads_back(e: EditsView, saved: EditsView, samples: Option<u64>)
    requires
        bext_chunk_of(e, saved, samples) is Ok,
    ensures
        bext_of(bext_chunk_of(e, saved, samples)->Ok_0) is Some,
        ({
            let read = bext_of(bext_chunk_of(e, saved, samples)->Ok_0)->0;
            &&& forall|k: int|
                0 <= k < 5 && e.bext[k] != saved.bext[k] && plain(crlf_of(e.bext[k]))
                    ==> #[trigger] field_texts(read)[k] == crlf_of(e.bext[k])
            &&& e.start != saved.start ==> start_of(e.start, samples) == Ok::<u64, Seq<char>>(
                read.time_reference,
            )
            &&& e.coding_history != saved.coding_history && plain(crlf_of(e.coding_history))
                ==> read.coding_history == crlf_of(e.coding_history)
        }),
{
    let raw = bext_chunk_of(e, saved, samples)->Ok_0;
    let base = bext_base(e.held.bext);
    let fields = fields_written(e.bext, saved.bext, 5, base)->Ok_0;
    assert(base.len() >= BEXT_SIZE);
    lemma_length_kept(e.bext, saved.bext, 5, base);
    lemma_places();
    assert(raw.len() >= BEXT_SIZE);
    assert(raw.take(338) =~= fields.take(338));
    let read = bext_of(raw)->0;
    assert forall|k: int|
        0 <= k < 5 && e.bext[k] != saved.bext[k] && plain(
            crlf_of(e.bext[k]),
        ) implies #[trigger] field_texts(read)[k] == crlf_of(e.bext[k]) by {
        lemma_field_written(e.bext, saved.bext, 5, base, k);
        let text = encode_utf8(crlf_of(e.bext[k]));
        let (label, start, end) = BEXT_FIELDS@[k];
        lemma_padded_text(crlf_of(e.bext[k]), (end - start - text.len()) as nat);
        assert(raw.subrange(start as int, end as int) =~= fields.subrange(
            start as int,
            end as int,
        )) by {
            assert forall|i: int| start <= i < end implies raw[i] == fields[i] by {
                assert(raw[i] == raw.take(338)[i]);
                assert(fields[i] == fields.take(338)[i]);
            }
        }
        assert(field_texts(read)[k] == text_of(raw.subrange(start as int, end as int)));
    }
    if e.start != saved.start {
        let n = start_of(e.start, samples)->Ok_0;
        lemma_le8(n);
        assert(raw.subrange(338, 346) =~= le8(n));
        lemma_u32_part(raw, 338, 346, 0);
        lemma_u32_part(raw, 338, 346, 4);
    }
    if e.coding_history != saved.coding_history {
        let text = encode_utf8(crlf_of(e.coding_history));
        assert(raw.skip(602) =~= text + zeros(0));
        if plain(crlf_of(e.coding_history)) {
            lemma_padded_text(crlf_of(e.coding_history), 0);
        }
    }
}

/// What a Broadcast WAV chunk says; one that is not there says nothing.
pub open spec fn bext_said(b: Option<BextView>) -> BextView {
    match b {
        Some(b) => b,
        None => BextView {
            description: Seq::empty(),
            originator: Seq::empty(),
            originator_reference: Seq::empty(),
            origination_date: Seq::empty(),
            origination_time: Seq::empty(),
            time_reference: 0,
            coding_history: Seq::empty(),
            raw: Seq::empty(),
        },
    }
}

/// Zeros are no text.
proof fn lemma_zeros_say_nothing(n: nat)
    ensures
        text_of(zeros(n)) == Seq::<char>::empty(),
{
    let none = Seq::<char>::empty();
    assert(encode_utf8(none) =~= Seq::<u8>::empty());
    assert(encode_utf8(none) + zeros(n) =~= zeros(n));
    assert(trim_of(none) =~= none);
    lemma_padded_text(none, n);
}

/// A field of the chunk that changes are written into says what it said.
proof fn lemma_base_says(held: Option<BextView>, k: int)
    requires
        0 <= k < 5,
        held matches Some(b) ==> bext_of(b.raw) == Some(b),
    ensures
        ({
            let base = bext_base(
                match held {
                    Some(b) => Some(b.raw),
                    None => None,
                },
            );
            let (label, start, end) = BEXT_FIELDS@[k];
            text_of(base.subrange(start as int, end as int)) == field_texts(bext_said(held))[k]
        }),
{
    lemma_places();
    let (label, start, end) = BEXT_FIELDS@[k];
    match held {
        Some(b) => {
            let base = bext_base(Some(b.raw));
            assert(base.subrange(start as int, end as int) =~= b.raw.subrange(
                start as int,
                end as int,
            ));
        },
        None => {
            let base = bext_base(None);
            assert(base.subrange(start as int, end as int) =~= zeros((end - start) as nat));
            lemma_zeros_say_nothing((end - start) as nat);
        },
    }
}

proof fn lemma_field_untouched(e: EditsView, saved: EditsView, samples: Option<u64>, k: int)
    requires
        bext_chunk_of(e, saved, samples) is Ok,
        bext_of(bext_chunk_of(e, saved, samples)->Ok_0) is Some,
        0 <= k < 5,
        e.bext[k] == saved.bext[k],
    ensures
        ({
            let read = bext_of(bext_chunk_of(e, saved, samples)->Ok_0)->0;
            let (label, start, end) = BEXT_FIELDS@[k];
            field_texts(read)[k] == text_of(
                bext_base(e.held.bext).subrange(start as int, end as int),
            )
        }),
{
    let raw = bext_chunk_of(e, saved, samples)->Ok_0;
    let base = bext_base(e.held.bext);
    lemma_places();
    let (label, start, end) = BEXT_FIELDS@[k];
    assert(base.len() >= BEXT_SIZE);
    assert forall|i: int| start <= i < end implies raw[i] == base[i] && i < raw.len() by {
        unchanged_bext_bytes_stay(e, saved, samples, i);
    }
    assert(raw.len() >= 346);
    assert(raw.subrange(start as int, end as int) =~= base.subrange(start as int, end as int));
}

proof fn lemma_start_untouched(
    e: EditsView,
    saved: EditsView,
    samples: Option<u64>,
    held: Option<BextView>,
)
    requires
        bext_chunk_of(e, saved, samples) is Ok,
        bext_of(bext_chunk_of(e, saved, samples)->Ok_0) is Some,
        held matches Some(b) ==> bext_of(b.raw) == Some(b),
        e.held.bext == match held {
            Some(b) => Some(b.raw),
            None => None,
        },
        e.start == saved.start,
    ensures
        bext_of(bext_chunk_of(e, saved, samples)->Ok_0)->0.time_reference == bext_said(
            held,
        ).time_reference,
{
    let raw = bext_chunk_of(e, saved, samples)->Ok_0;
    let base = bext_base(e.held.bext);
    lemma_places();
    assert(base.len() >= BEXT_SIZE);
    assert forall|i: int| 338 <= i < 346 implies raw[i] == base[i] by {
        unchanged_bext_bytes_stay(e, saved, samples, i);
    }
    match held {
        Some(b) => {
            assert forall|i: int| 338 <= i < 346 implies base[i] == b.raw[i] by {}
        },
        None => {
            assert forall|i: int| 338 <= i < 346 implies base[i] == 0 by {}
        },
    }
}

proof fn lemma_history_untouched(
    e: EditsView,
    saved: EditsView,
    samples: Option<u64>,
    held: Option<BextView>,
)
    requires
        bext_chunk_of(e, saved, samples) is Ok,
        bext_of(bext_chunk_of(e, saved, samples)->Ok_0) is Some,
        held matches Some(b) ==> bext_of(b.raw) == Some(b),
        e.held.bext == match held {
            Some(b) => Some(b.raw),
            None => None,
        },
        e.coding_history == saved.coding_history,
    ensures
        bext_of(bext_chunk_of(e, saved, samples)->Ok_0)->0.coding_history == bext_said(
            held,
        ).coding_history,
{
    let raw = bext_chunk_of(e, saved, samples)->Ok_0;
    let base = bext_base(e.held.bext);
    lemma_places();
    assert(base.len() >= BEXT_SIZE);
    lemma_length_kept(e.bext, saved.bext, 5, base);
    assert(raw.len() == base.len());
    assert forall|i: int| 602 <= i < base.len() implies raw[i] == base[i] by {
        unchanged_bext_bytes_stay(e, saved, samples, i);
    }
    assert(raw.skip(602) =~= base.skip(602));
    if held is None || held->0.raw.len() < 602 {
        assert(base.skip(602) =~= zeros(0));
        lemma_zeros_say_nothing(0);
    }
}

/// A Broadcast WAV chunk that was written says what it said before in each
/// field that was not changed.
pub proof fn untouched_bext_fields_read_as_before(
    e: EditsView,
    saved: EditsView,
    samples: Option<u64>,
    held: Option<BextView>,
)
    requires
        bext_chunk_of(e, saved, samples) is Ok,
        held matches Some(b) ==> bext_of(b.raw) == Some(b),
        e.held.bext == match held {
            Some(b) => Some(b.raw),
            None => None,
        },
    ensures
        bext_of(bext_chunk_of(e, saved, samples)->Ok_0) is Some,
        ({
            let read = bext_of(bext_chunk_of(e, saved, samples)->Ok_0)->0;
            let before = bext_said(held);
            &&& forall|k: int|
                0 <= k < 5 && e.bext[k] == saved.bext[k] ==> #[trigger] field_texts(read)[k]
                    == field_texts(before)[k]
            &&& e.start == saved.start ==> read.time_reference == before.time_reference
            &&& e.coding_history == saved.coding_history ==> read.coding_history
                == before.coding_history
        }),
{
    written_bext_reads_back(e, saved, samples);
    let read = bext_of(bext_chunk_of(e, saved, samples)->Ok_0)->0;
    let before = bext_said(held);
    assert forall|k: int| 0 <= k < 5 && e.bext[k] == saved.bext[k] implies #[trigger] field_texts(
        read,
    )[k] == field_texts(before)[k] by {
        lemma_field_untouched(e, saved, samples, k);
        lemma_base_says(held, k);
    }
    if e.start == saved.start {
        lemma_start_untouched(e, saved, samples, held);
    }
    if e.coding_history == saved.coding_history {
        lemma_history_untouched(e, saved, samples, held);
    }
}

} // verus!
