//! What the lists of files show, and in which order.

use crate::batch::{parking_name, BatchView};
use crate::explorer::{
    at_most_one_name_goes_first, audio_extension, digit_run, head_of, is_audio_path,
    lemma_digit_run, listed, natural_of, no_name_goes_before_itself, rest_of, row_is, small, sooner,
    text_sooner, the_order_of_names_carries_over, value_of, EntryView, ExplorerView, RowView,
};
use crate::numerals::digits_read_as_their_number;
use crate::order::{in_order, sort_by, sorting_keeps_every_item, what_is_sorted_is_in_order};
use crate::path::{
    an_extension_follows_the_last_dot, file_name_of, is_under, last_of, parent_of,
    renaming_stays_in_the_folder, with_file_name_of,
};
use crate::pattern::Moment;
use crate::rename::{path_order, problem_text, Candidate, PlannedView, Rules};
use crate::rename_ui::{
    counts_of, earlier, file_before, first_problem, hidden_changes, hidden_moves, hidden_rest,
    hidden_rules_of, moves_of, one_if, reversed_of, row_order, sorted_rows, status_of, FiltersView,
    RenamerView, Sort,
};
use crate::text::{
    a_text_splits_at_its_separators, digit, digit_of, digits_of, lowered, split_of,
};
use crate::wav::{first_index, lemma_first_index};
use vstd::prelude::*;

verus! {

proof fn lemma_value_read(n: nat)
    ensures
        value_of(digits_of(n)) == n,
    decreases n,
{
    let s = digits_of(n);
    if n < 10 {
        assert(s.drop_last() =~= Seq::<char>::empty());
        assert(value_of(s.drop_last()) == 0);
        assert(s.last() == digit_of(n));
    } else {
        lemma_value_read(n / 10);
        assert(s.drop_last() =~= digits_of(n / 10));
        assert(s.last() == digit_of(n % 10));
    }
}

proof fn lemma_number_heads(n: nat, rest: Seq<char>)
    requires
        rest.len() == 0 || !digit(rest[0]),
    ensures
        ({
            let s = digits_of(n) + rest;
            s.len() > 0 && head_of(s) == ('0' as int, n) && rest_of(s) == rest
        }),
{
    let d = digits_of(n);
    let s = d + rest;
    digits_read_as_their_number(n);
    lemma_digit_run(s);
    let k = digit_run(s) as int;
    assert(s[0] == d[0]);
    assert(digit(d[0]));
    if k < d.len() {
        assert(s[k] == d[k]);
        assert(digit(d[k]));
    } else if k > d.len() {
        assert(s[d.len() as int] == rest[0]);
    }
    assert(s.take(k) =~= d);
    assert(s.skip(k) =~= rest);
    lemma_value_read(n);
}

/// Names go by their first difference: numbers by their value, however many
/// digits they have, and other characters as they are; what has nothing more
/// to say goes first.
pub proof fn names_go_by_their_numbers(
    n: nat,
    m: nat,
    c: char,
    d: char,
    a: Seq<char>,
    b: Seq<char>,
)
    requires
        !digit(c),
        !digit(d),
        a.len() == 0 || !digit(a[0]),
        b.len() == 0 || !digit(b[0]),
    ensures
        n < m ==> sooner(digits_of(n) + a, digits_of(m) + b),
        n == m ==> sooner(digits_of(n) + a, digits_of(m) + b) == sooner(a, b),
        sooner(seq![c] + a, seq![c] + b) == sooner(a, b),
        c < d ==> sooner(seq![c] + a, seq![d] + b),
        a.len() > 0 ==> sooner(Seq::empty(), a),
{
    lemma_number_heads(n, a);
    lemma_number_heads(m, b);
    let (x, y, z) = (seq![c] + a, seq![c] + b, seq![d] + b);
    assert(x[0] == c && y[0] == c && z[0] == d);
    assert(rest_of(x) =~= a);
    assert(rest_of(y) =~= b);
}

/// Whether a file holds sound goes by its extension alone, whatever the case of
/// its letters.
pub proof fn sound_files_go_by_their_extension(
    dir: Seq<char>,
    stem: Seq<char>,
    ext: Seq<char>,
)
    requires
        !stem.contains('/'),
        stem.len() > 0,
        !ext.contains('/'),
        !ext.contains('.'),
    ensures
        is_audio_path(dir + seq!['/'] + stem + seq!['.'] + ext) == audio_extension(
            ext.map_values(|c: char| small(c)),
        ),
        !is_audio_path(dir + seq!['/'] + ext),
{
    an_extension_follows_the_last_dot(dir, stem, ext);
}

/// Of the letters only the capitals from A to Z are made small, and each
/// becomes the one as far from `a` as it is from `A`.
pub proof fn capitals_are_made_small(c: char)
    ensures
        'A' <= c <= 'Z' ==> small(c) as int - 'a' as int == c as int - 'A' as int,
        !('A' <= c <= 'Z') ==> small(c) == c,
{
}

/// A folder none of whose entries is open shows a row for each of them, in
/// their order; one that is being read shows that it is.
pub proof fn a_folder_shows_its_entries(
    v: ExplorerView,
    dir: Seq<char>,
    entries: Seq<EntryView>,
    depth: usize,
    limit: nat,
    k: int,
)
    requires
        dir.len() <= limit,
        0 <= k <= entries.len(),
        forall|i: int|
            0 <= i < entries.len() ==> !((#[trigger] entries[i]).is_dir && v.open.contains(
                entries[i].path,
            )),
    ensures
        v.entry_rows(dir, entries, depth, limit, k).rows == Seq::new(
            k as nat,
            |i: int| RowView::Entry { depth, entry: entries[i], open: false },
        ),
        v.entry_rows(dir, entries, depth, limit, k).unread.len() == 0,
        v.listings.dom().contains(dir) && v.listings[dir] == Some(entries) ==> v.folder_rows(
            dir,
            depth,
            limit,
        ) == v.entry_rows(dir, entries, depth, limit, entries.len() as int),
        v.listings.dom().contains(dir) && v.listings[dir] is None ==> v.folder_rows(
            dir,
            depth,
            limit,
        ).rows == seq![RowView::Loading { depth }] && v.folder_rows(dir, depth, limit).unread.len()
            == 0,
        !v.listings.dom().contains(dir) ==> v.folder_rows(dir, depth, limit).unread == seq![dir],
    decreases k,
{
    if k > 0 {
        a_folder_shows_its_entries(v, dir, entries, depth, limit, k - 1);
        assert(!(entries[k - 1].is_dir && v.open.contains(entries[k - 1].path)));
        assert(v.entry_rows(dir, entries, depth, limit, k).rows =~= Seq::new(
            k as nat,
            |i: int| RowView::Entry { depth, entry: entries[i], open: false },
        ));
    } else {
        assert(v.entry_rows(dir, entries, depth, limit, k).rows =~= Seq::new(
            0,
            |i: int| RowView::Entry { depth, entry: entries[i], open: false },
        ));
    }
}

/// What stands in an open folder follows its row, one step further in, and
/// comes before what follows the folder.
pub proof fn an_open_folder_shows_what_is_in_it(
    v: ExplorerView,
    dir: Seq<char>,
    entries: Seq<EntryView>,
    depth: usize,
    limit: nat,
    k: int,
)
    requires
        dir.len() <= limit,
        0 < k <= entries.len(),
        depth < usize::MAX,
        entries[k - 1].path.len() > dir.len(),
    ensures
        ({
            let e = entries[k - 1];
            let open = e.is_dir && v.open.contains(e.path);
            let inside = v.folder_rows(e.path, (depth + 1) as usize, limit).rows;
            v.entry_rows(dir, entries, depth, limit, k).rows == v.entry_rows(
                dir,
                entries,
                depth,
                limit,
                k - 1,
            ).rows + seq![RowView::Entry { depth, entry: e, open }] + if open {
                inside
            } else {
                Seq::empty()
            }
        }),
{
    let e = entries[k - 1];
    let open = e.is_dir && v.open.contains(e.path);
    let before = v.entry_rows(dir, entries, depth, limit, k - 1).rows + seq![
        RowView::Entry { depth, entry: e, open },
    ];
    assert(before + Seq::<RowView>::empty() =~= before);
}

/// The row beside the selected one is the next that can be picked: nothing
/// that can be lies between.
pub proof fn the_next_row_is_the_one_beside(v: ExplorerView, rows: Seq<RowView>, at: int)
    requires
        0 <= at < rows.len(),
        v.selected is Some,
        row_is(v.selected->0)(rows[at]),
        forall|i: int| 0 <= i < at ==> !row_is(v.selected->0)(#[trigger] rows[i]),
    ensures
        v.row_beside(rows, true) matches Some(i) ==> at < i < rows.len() && rows[i] is Entry
            && forall|j: int| at < j < i ==> !(#[trigger] rows[j] is Entry),
        v.row_beside(rows, true) is None ==> forall|j: int|
            at < j < rows.len() ==> !(#[trigger] rows[j] is Entry),
        v.row_beside(rows, false) matches Some(i) ==> 0 <= i < at && rows[i] is Entry && forall|
            j: int,
        |
            i < j < at ==> !(#[trigger] rows[j] is Entry),
        v.row_beside(rows, false) is None ==> forall|j: int|
            0 <= j < at ==> !(#[trigger] rows[j] is Entry),
        v.reveal ==> v.row_to_reveal(rows) == Some(at),
        !v.reveal ==> v.row_to_reveal(rows) is None,
{
    let p = row_is(v.selected->0);
    lemma_first_index(rows, p, 0);
    let k = first_index(rows, p, 0);
    if k < at {
        assert(!p(rows[k]));
    } else if k > at {
        assert(!p(rows[at]));
    }
    assert(k == at);
    let q = crate::explorer::entry_row();
    lemma_first_index(rows, q, at + 1);
    let next = first_index(rows, q, at + 1);
    assert forall|j: int| at < j < next implies !(#[trigger] rows[j] is Entry) by {
        assert(!q(rows[j]));
    }
    if next < rows.len() {
        assert(q(rows[next]));
    }
    lemma_entry_above(rows, at);
}

proof fn lemma_entry_above(rows: Seq<RowView>, i: int)
    requires
        0 <= i <= rows.len(),
    ensures
        ({
            let k = crate::explorer::entry_above(rows, i);
            &&& -1 <= k < i
            &&& k >= 0 ==> rows[k] is Entry
            &&& forall|j: int| k < j < i && j >= 0 ==> !(#[trigger] rows[j] is Entry)
        }),
    decreases i,
{
    if i > 0 && !(rows[i - 1] is Entry) {
        lemma_entry_above(rows, i - 1);
    }
}

/// A new root keeps what was read below it, and nothing else; a file that is
/// shown is selected in its own folder.
pub proof fn a_root_keeps_what_is_below_it(v: ExplorerView, dir: Seq<char>, p: Seq<char>)
    ensures
        v.rooted(dir).root == Some(dir),
        v.root != Some(dir) ==> (v.rooted(dir).listings.dom().contains(p) <==> v.listings.dom().contains(
            p,
        ) && is_under(p, dir)),
        v.rooted(dir).listings.dom().contains(p) ==> v.rooted(dir).listings[p] == v.listings[p],
        v.rooted(dir).open == v.open,
        v.revealing(p, false).selected == Some(p),
        v.revealing(p, false).reveal,
        parent_of(p, false) matches Some(up) ==> v.revealing(p, false).root == Some(up),
{
}

/// Of two moments one is earlier, unless they are the same, and the order goes
/// by the largest part in which they differ.
pub proof fn moments_go_one_after_another(a: Moment, b: Moment, c: Moment)
    ensures
        !earlier(a, a),
        !(earlier(a, b) && earlier(b, a)),
        a == b || earlier(a, b) || earlier(b, a),
        earlier(a, b) && earlier(b, c) ==> earlier(a, c),
        a.year < b.year ==> earlier(a, b),
        earlier(a, b) ==> a.year <= b.year,
        a.year == b.year && a.month < b.month ==> earlier(a, b),
        a.year == b.year && a.month == b.month && a.day < b.day ==> earlier(a, b),
{
}

proof fn lemma_file_order(sort: Sort, a: Candidate, b: Candidate, c: Candidate)
    ensures
        !file_before(sort, a, a),
        !(file_before(sort, a, b) && file_before(sort, b, a)),
        !file_before(sort, b, a) && !file_before(sort, c, b) ==> !file_before(sort, c, a),
{
    let (x, y, z) = (lowered(a.path@), lowered(b.path@), lowered(c.path@));
    no_name_goes_before_itself(x);
    at_most_one_name_goes_first(x, y);
    at_most_one_name_goes_first(y, z);
    at_most_one_name_goes_first(x, z);
    if !sooner(y, x) && !sooner(z, y) {
        the_order_of_names_carries_over(x, y, z);
    }
    if !sooner(x, z) && !sooner(y, x) {
        the_order_of_names_carries_over(z, x, y);
    }
    if !sooner(z, y) && !sooner(x, z) {
        the_order_of_names_carries_over(y, z, x);
    }
}

/// The rows of the list are the files that were listed, each as often, with
/// nothing before what goes ahead of it; turned round, they are the same rows
/// from the last to the first.
pub proof fn the_list_is_in_order(rows: Seq<(Candidate, bool)>, sort: Sort)
    ensures
        sorted_rows(rows, sort, false).to_multiset() == rows.to_multiset(),
        in_order(sorted_rows(rows, sort, false), row_order(sort)),
        sorted_rows(rows, sort, true) == sorted_rows(rows, sort, false).reverse(),
        sorted_rows(rows, sort, true).len() == rows.len(),
{
    let less = row_order(sort);
    assert forall|a: (Candidate, bool)| !#[trigger] less(a, a) by {
        lemma_file_order(sort, a.0, a.0, a.0);
    }
    assert forall|a: (Candidate, bool), b: (Candidate, bool)| #[trigger]
        less(a, b) implies !less(b, a) by {
        lemma_file_order(sort, a.0, b.0, b.0);
    }
    assert forall|a: (Candidate, bool), b: (Candidate, bool), c: (Candidate, bool)|
        !#[trigger] less(b, a) && !#[trigger] less(c, b) implies !less(c, a) by {
        lemma_file_order(sort, a.0, b.0, c.0);
    }
    sorting_keeps_every_item(rows, less);
    what_is_sorted_is_in_order(rows, less);
}

/// Files go by what the list is sorted by, those without it first, and by their
/// names where that is the same.
pub proof fn files_go_by_what_is_sorted_by(a: Candidate, b: Candidate)
    ensures
        sooner(lowered(a.path@), lowered(b.path@)) ==> file_before(Sort::Name, a, b),
        a.size < b.size ==> file_before(Sort::Size, a, b),
        a.size == b.size ==> file_before(Sort::Size, a, b) == sooner(
            lowered(a.path@),
            lowered(b.path@),
        ),
        a.modified_at is None && b.modified_at is Some ==> file_before(Sort::Modified, a, b),
        a.modified_at is Some && b.modified_at is Some && a.modified_at->0 < b.modified_at->0
            ==> file_before(Sort::Modified, a, b),
        a.recorded is None && b.recorded is Some ==> file_before(Sort::Recorded, a, b),
        a.recorded is Some && b.recorded is Some && earlier(a.recorded->0, b.recorded->0)
            ==> file_before(Sort::Recorded, a, b),
        a.recorded == b.recorded ==> file_before(Sort::Recorded, a, b) == sooner(
            lowered(a.path@),
            lowered(b.path@),
        ),
{
    if let Some(x) = a.recorded {
        moments_go_one_after_another(x, x, x);
    }
}

/// A click on the column that the list is sorted by turns it round, and a click
/// on another sorts by that, from the first on.
pub proof fn a_click_sorts_or_turns_round(v: RenamerView, sort: Sort)
    ensures
        v.clicked(sort).sort == sort,
        v.sort == sort ==> v.clicked(sort).descending == !v.descending,
        v.sort != sort ==> !v.clicked(sort).descending,
        v.clicked(sort).clicked(sort).descending == !v.clicked(sort).descending,
        v.clicked(sort).rows.len() == v.rows.len(),
        v.clicked(sort).folder == v.folder && v.clicked(sort).last == v.last,
{
    the_list_is_in_order(v.rows, sort);
}

/// What is counted of a plan adds up line by line: the files chosen, those that
/// get another name, and those with a problem. A batch is the renames of its
/// parts one after another, and the first problem is the first part's.
pub proof fn a_plan_adds_up(a: Seq<Option<PlannedView>>, b: Seq<Option<PlannedView>>)
    ensures
        counts_of(a + b) == (
            counts_of(a).0 + counts_of(b).0,
            counts_of(a).1 + counts_of(b).1,
            counts_of(a).2 + counts_of(b).2,
        ),
        moves_of(a + b) == moves_of(a) + moves_of(b),
        moves_of(a).len() == counts_of(a).1,
        counts_of(a).1 <= counts_of(a).0 <= a.len(),
        counts_of(a).2 <= counts_of(a).0,
    decreases a.len() + b.len(),
{
    if b.len() > 0 {
        a_plan_adds_up(a, b.drop_last());
        assert((a + b).drop_last() =~= a + b.drop_last());
        assert((a + b).last() == b.last());
        assert(moves_of(a + b) =~= moves_of(a) + moves_of(b));
    } else {
        assert(a + b =~= a);
        assert(moves_of(a) + moves_of(b) =~= moves_of(a));
        if a.len() > 0 {
            a_plan_adds_up(a.drop_last(), b);
            assert(a.drop_last() + b =~= a.drop_last());
        }
    }
}

/// One line of a plan counts once as chosen, and as changing or as a problem
/// where it is one.
pub proof fn a_line_counts_once(p: PlannedView)
    ensures
        counts_of(seq![Some(p)]).0 == 1,
        counts_of(seq![Some(p)]).1 == 1 <==> p.from != p.to,
        counts_of(seq![Some(p)]).2 == 1 <==> p.problem is Some,
        p.from != p.to ==> moves_of(seq![Some(p)]) == seq![(p.from, p.to)],
        p.from == p.to ==> moves_of(seq![Some(p)]).len() == 0,
        counts_of(seq![None]) == (0nat, 0nat, 0nat),
        moves_of(seq![None]).len() == 0,
{
    let one = seq![Some(p)];
    let none = seq![None::<PlannedView>];
    assert(one.drop_last() =~= Seq::<Option<PlannedView>>::empty());
    assert(none.drop_last() =~= Seq::<Option<PlannedView>>::empty());
    assert(one.last() == Some(p));
    assert(none.last() is None);
    reveal_with_fuel(counts_of, 2);
    reveal_with_fuel(moves_of, 2);
    if p.from != p.to {
        assert(moves_of(one) =~= seq![(p.from, p.to)]);
    }
}

/// Names alike but for the case of their letters go by their characters, at the
/// first in which they differ.
pub proof fn texts_go_by_their_first_difference(a: Seq<char>, c: char, d: char, x: Seq<char>, y: Seq<char>)
    ensures
        c < d ==> text_sooner(a + seq![c] + x, a + seq![d] + y),
        c < d ==> !text_sooner(a + seq![d] + y, a + seq![c] + x),
        text_sooner(a, a + seq![c] + x),
        !text_sooner(a + seq![c] + x, a),
    decreases a.len(),
{
    let (s, t) = (a + seq![c] + x, a + seq![d] + y);
    if a.len() > 0 {
        let rest = a.skip(1);
        texts_go_by_their_first_difference(rest, c, d, x, y);
        assert(s[0] == a[0] && t[0] == a[0]);
        assert(s.skip(1) =~= rest + seq![c] + x);
        assert(t.skip(1) =~= rest + seq![d] + y);
    } else {
        assert(s[0] == c && t[0] == d);
    }
}

/// Hidden files are not listed, nor files without sound; folders are, unless
/// they are hidden.
pub proof fn folders_and_sound_files_are_listed(e: EntryView)
    ensures
        e.name.len() > 0 && e.name[0] == '.' ==> !listed(e),
        !e.is_dir && !is_audio_path(e.path) ==> !listed(e),
        e.name.len() > 0 && e.name[0] != '.' && e.is_dir ==> listed(e),
        e.name.len() > 0 && e.name[0] != '.' && is_audio_path(e.path) ==> listed(e),
{
}

/// A listing that comes in time shows its files, all of them chosen, in the
/// order of the list; a new one is then awaited no more.
pub proof fn a_listing_shows_its_files(v: RenamerView, files: Seq<Candidate>)
    ensures
        ({
            let next = v.arrived(v.listing, files);
            &&& !next.reading
            &&& next.rows.len() == files.len()
            &&& !v.descending ==> next.rows.to_multiset() == Seq::new(
                files.len(),
                |i: int| (files[i], true),
            ).to_multiset()
            &&& next.folder == v.folder && next.last == v.last
        }),
{
    let rows = crate::rename_ui::all_chosen(files);
    assert(rows =~= Seq::new(files.len(), |i: int| (files[i], true)));
    the_list_is_in_order(rows, v.sort);
}

/// Listing anew asks for a new listing, and only where there is a folder to
/// list; without one the list is empty.
pub proof fn listing_anew_awaits_a_listing(v: RenamerView, filters: FiltersView)
    requires
        v.listing < u64::MAX,
    ensures
        v.refreshed(filters).listing != v.listing,
        v.refreshed(filters).listed_with == Some(filters),
        v.folder is Some ==> v.refreshed(filters).reading && v.refreshed(filters).rows == v.rows,
        v.folder is None ==> v.refreshed(filters).rows.len() == 0,
        !v.refreshed(filters).behind(v.folder, filters),
        forall|folder: Option<Seq<char>>|
            folder != v.folder ==> #[trigger] v.behind(folder, filters),
{
}

/// A batch that went well can be put back, and once it was put back it cannot
/// be again; one that failed changes nothing but what is said.
pub proof fn a_batch_can_be_put_back_once(
    v: RenamerView,
    batch: Seq<(Seq<char>, Seq<char>)>,
    why: Seq<char>,
)
    ensures
        v.after_batch(batch, false, None).last == Some(batch),
        v.after_batch(batch, true, None).last is None,
        v.after_batch(batch, false, Some(why)).last == v.last,
        v.after_batch(batch, true, Some(why)).last == v.last,
        v.after_batch(batch, false, Some(why)).message == Some((why, true)),
        v.after_batch(batch, false, None).message matches Some(m) && !m.1,
        v.after_batch(batch, false, None).rows == v.rows,
{
}

/// Files that were found are all there, in the order of their paths.
pub proof fn found_files_go_by_their_paths(found: Seq<Candidate>)
    ensures
        sort_by(found, path_order()).to_multiset() == found.to_multiset(),
        sort_by(found, path_order()).len() == found.len(),
        forall|i: int, j: int|
            0 <= i < j < found.len() ==> !sooner(
                lowered((#[trigger] sort_by(found, path_order())[j]).path@),
                lowered((#[trigger] sort_by(found, path_order())[i]).path@),
            ),
{
    let less = path_order();
    assert forall|a: Candidate| !#[trigger] less(a, a) by {
        no_name_goes_before_itself(lowered(a.path@));
    }
    assert forall|a: Candidate, b: Candidate| #[trigger] less(a, b) implies !less(b, a) by {
        at_most_one_name_goes_first(lowered(a.path@), lowered(b.path@));
    }
    assert forall|a: Candidate, b: Candidate, c: Candidate|
        !#[trigger] less(b, a) && !#[trigger] less(c, b) implies !less(c, a) by {
        the_order_of_names_carries_over(lowered(a.path@), lowered(b.path@), lowered(c.path@));
    }
    sorting_keeps_every_item(found, less);
    what_is_sorted_is_in_order(found, less);
    let s = sort_by(found, less);
    assert forall|i: int, j: int| 0 <= i < j < found.len() implies !sooner(
        lowered((#[trigger] s[j]).path@),
        lowered((#[trigger] s[i]).path@),
    ) by {
        assert(!less(s[j], s[i]));
    }
}

/// The first problem of a plan is told with the file it is of, and none is told
/// where there is none.
pub proof fn the_first_problem_is_told(
    before: Seq<Option<PlannedView>>,
    p: PlannedView,
    after: Seq<Option<PlannedView>>,
)
    requires
        forall|i: int|
            0 <= i < before.len() ==> ((#[trigger] before[i]) matches Some(q) ==> q.problem is None),
        p.problem is Some,
    ensures
        first_problem(before) is None,
        first_problem(before + seq![Some(p)] + after) == Some(
            file_name_of(p.from) + ": "@ + problem_text(p.problem->0),
        ),
    decreases before.len(),
{
    let all = before + seq![Some(p)] + after;
    if before.len() > 0 {
        let rest = before.skip(1);
        assert forall|i: int| 0 <= i < rest.len() implies ((#[trigger] rest[i]) matches Some(q)
            ==> q.problem is None) by {
            assert(rest[i] == before[i + 1]);
        }
        the_first_problem_is_told(rest, p, after);
        assert(all[0] == before[0]);
        assert(all.skip(1) =~= rest + seq![Some(p)] + after);
        assert(before[0] matches Some(q) ==> q.problem is None);
    } else {
        assert(all[0] == Some(p));
    }
}

/// No rule is hidden while every panel is as it starts out, and each panel that
/// is not counts once at most.
pub proof fn hidden_rules_are_counted(r: Rules)
    ensures
        r.is_plain() ==> hidden_rules_of(r) == 0,
        hidden_rules_of(r) <= 12,
        !r.regex.is_plain() ==> hidden_rules_of(r) > 0,
        !r.name.is_plain() ==> hidden_rules_of(r) > 0,
        !r.remove.is_plain() ==> hidden_rules_of(r) > 0,
        !r.moves.is_plain() ==> hidden_rules_of(r) > 0,
        !r.date.is_plain() ==> hidden_rules_of(r) > 0,
        !r.folder.is_plain() ==> hidden_rules_of(r) > 0,
        !r.extension.is_plain() ==> hidden_rules_of(r) > 0,
        !r.filters.is_plain() ==> hidden_rules_of(r) > 0,
{
    reveal(hidden_changes);
    reveal(hidden_moves);
    reveal(hidden_rest);
    reveal(one_if);
}

/// One folder up is the folder that holds the root; above the topmost there is
/// nothing, but for the drives where there are any.
pub proof fn up_is_the_folder_that_holds_the_root(v: ExplorerView, windows: bool)
    ensures
        v.root is None ==> v.above(windows) is None,
        v.root matches Some(root) ==> {
            &&& parent_of(root, windows) matches Some(dir) ==> v.above(windows) == Some(Some(dir))
            &&& parent_of(root, windows) is None && !windows ==> v.above(windows) is None
            &&& parent_of(root, windows) is None && windows ==> v.above(windows) == Some(
                None::<Seq<char>>,
            )
        },
{
}

/// A file that is to be shown is looked for until it was, or until its folder
/// has been read.
pub proof fn a_file_is_looked_for_until_it_is_shown(v: ExplorerView)
    ensures
        !v.after_showing(true).reveal,
        v.root matches Some(root) ==> {
            &&& v.listings.dom().contains(root) && v.listings[root] is Some ==> !v.after_showing(
                false,
            ).reveal
            &&& !v.listings.dom().contains(root) || v.listings[root] is None ==> v.after_showing(
                false,
            ).reveal == v.reveal
        },
        v.after_showing(false).root == v.root && v.after_showing(false).selected == v.selected,
{
}

/// A click opens a folder that is closed and closes one that is open, and no
/// other; what was read below it is read again.
pub proof fn a_click_opens_or_closes(v: ExplorerView, dir: Seq<char>, other: Seq<char>)
    ensures
        v.toggled(dir).open.contains(dir) == !v.open.contains(dir),
        other != dir ==> v.toggled(dir).open.contains(other) == v.open.contains(other),
        v.toggled(dir).listings.dom().contains(other) <==> v.listings.dom().contains(other)
            && !is_under(other, dir),
        v.toggled(dir).listings.dom().contains(other) ==> v.toggled(dir).listings[other]
            == v.listings[other],
        v.toggled(dir).root == v.root && v.toggled(dir).selected == v.selected,
{
}

/// A listing that is awaited is shown, and no other folder's.
pub proof fn an_awaited_listing_is_shown(
    v: ExplorerView,
    dir: Seq<char>,
    entries: Seq<EntryView>,
    other: Seq<char>,
)
    ensures
        v.listings.dom().contains(dir) && v.listings[dir] is None ==> v.arrived(
            dir,
            entries,
        ).listings.dom().contains(dir) && v.arrived(dir, entries).listings[dir] == Some(entries),
        !v.listings.dom().contains(dir) || v.listings[dir] is Some ==> v.arrived(dir, entries) == v,
        other != dir ==> v.arrived(dir, entries).listings.dom().contains(other)
            == v.listings.dom().contains(other),
        other != dir && v.listings.dom().contains(other) ==> v.arrived(
            dir,
            entries,
        ).listings[other] == v.listings[other],
        v.arrived(dir, entries).open == v.open,
{
}

/// A batch is put back file by file: each goes from where it went to where it
/// was.
pub proof fn putting_back_goes_the_other_way(b: Seq<(Seq<char>, Seq<char>)>, i: int)
    requires
        0 <= i < b.len(),
    ensures
        reversed_of(b).len() == b.len(),
        reversed_of(b)[i].0 == b[i].1,
        reversed_of(b)[i].1 == b[i].0,
{
}

/// A batch ends well exactly where every file got its name. One that does not
/// says which file stopped it, and names every file that is not where it was.
pub proof fn a_batch_says_how_it_ended(v: BatchView, i: int)
    requires
        v.wf(),
        v.over(),
    ensures
        v.result() is Ok <==> v.phase == crate::batch::Phase::Done,
        v.result() is Ok && 0 <= i < v.renames.len() ==> v.place(i) == v.renames[i].1,
        v.result() is Err && v.back.len() == 0 && v.stuck.len() == 0 && 0 <= i < v.renames.len()
            ==> v.place(i) == v.renames[i].0,
{
    if 0 <= i < v.renames.len() {
        assert(v.spots[i] == v.spots[i]);
    }
}

/// A file that waits for its name does so beside where it was, hidden, and no
/// two files of a batch, nor two attempts at one, wait under the same name.
pub proof fn files_wait_under_names_of_their_own(
    process: u32,
    i: nat,
    j: nat,
    a: u32,
    b: u32,
    path: Seq<char>,
)
    ensures
        parking_name(process, i, a) == parking_name(process, j, b) ==> i == j && a == b,
        parking_name(process, i, a)[0] == '.',
        !parking_name(process, i, a).contains('/'),
        last_of(with_file_name_of(path, parking_name(process, i, a)), '/') == last_of(path, '/'),
{
    lemma_waiting_apart(process, i, j, a, b);
    lemma_waiting_plain(process, i, a);
    renaming_stays_in_the_folder(path, parking_name(process, i, a));
}

spec fn waiting_head(process: u32) -> Seq<char> {
    ".soundcheck-renaming-"@ + digits_of(process as nat) + "-"@
}

proof fn lemma_waiting_parts(process: u32, i: nat, a: u32)
    ensures
        parking_name(process, i, a) == waiting_head(process) + (digits_of(i) + seq!['-']
            + digits_of(a as nat)),
{
    reveal_strlit("-");
    assert("-"@ =~= seq!['-']);
    assert(parking_name(process, i, a) =~= waiting_head(process) + (digits_of(i) + seq!['-']
        + digits_of(a as nat)));
}

proof fn lemma_waiting_apart(process: u32, i: nat, j: nat, a: u32, b: u32)
    ensures
        parking_name(process, i, a) == parking_name(process, j, b) ==> i == j && a == b,
{
    let p = waiting_head(process);
    let u = digits_of(i) + seq!['-'] + digits_of(a as nat);
    let v = digits_of(j) + seq!['-'] + digits_of(b as nat);
    lemma_waiting_parts(process, i, a);
    lemma_waiting_parts(process, j, b);
    if p + u == p + v {
        assert((p + u).skip(p.len() as int) =~= u);
        assert((p + v).skip(p.len() as int) =~= v);
        lemma_numbers_apart(i, a as nat);
        lemma_numbers_apart(j, b as nat);
        let (s, t) = (split_of(u, seq!['-']), split_of(v, seq!['-']));
        assert(s[0] == t[0] && s[1] == t[1]);
        digits_read_as_their_number(i);
        digits_read_as_their_number(j);
        digits_read_as_their_number(a as nat);
        digits_read_as_their_number(b as nat);
    }
}

proof fn lemma_digits_plain(n: nat)
    ensures
        !digits_of(n).contains('/'),
{
    digits_read_as_their_number(n);
    let s = digits_of(n);
    if s.contains('/') {
        let k = choose|k: int| 0 <= k < s.len() && s[k] == '/';
        assert(digit(s[k]));
    }
}

proof fn lemma_both_plain(a: Seq<char>, b: Seq<char>)
    requires
        !a.contains('/'),
        !b.contains('/'),
    ensures
        !(a + b).contains('/'),
{
    if (a + b).contains('/') {
        let k = choose|k: int| 0 <= k < (a + b).len() && (a + b)[k] == '/';
        if k < a.len() {
            assert(a[k] == '/');
        } else {
            assert(b[k - a.len()] == '/');
        }
    }
}

proof fn lemma_waiting_plain(process: u32, i: nat, a: u32)
    ensures
        parking_name(process, i, a)[0] == '.',
        !parking_name(process, i, a).contains('/'),
{
    reveal_strlit(".soundcheck-renaming-");
    reveal_strlit("-");
    let (p, u, v) = (digits_of(process as nat), digits_of(i), digits_of(a as nat));
    let first = ".soundcheck-renaming-"@;
    lemma_digits_plain(process as nat);
    lemma_digits_plain(i);
    lemma_digits_plain(a as nat);
    lemma_both_plain(first, p);
    lemma_both_plain(first + p, "-"@);
    lemma_both_plain(u, seq!['-']);
    lemma_both_plain(u + seq!['-'], v);
    lemma_both_plain(waiting_head(process), u + seq!['-'] + v);
    lemma_waiting_parts(process, i, a);
    assert(waiting_head(process)[0] == first[0]);
}

proof fn lemma_numbers_apart(i: nat, a: nat)
    ensures
        split_of(digits_of(i) + seq!['-'] + digits_of(a), seq!['-']) == seq![
            digits_of(i),
            digits_of(a),
        ],
{
    let seps = seq!['-'];
    assert(seps[0] == '-');
    assert(seps.contains(seps[0]));
    digits_read_as_their_number(i);
    digits_read_as_their_number(a);
    let (x, y) = (digits_of(i), digits_of(a));
    assert forall|k: int| 0 <= k < x.len() implies !seps.contains(#[trigger] x[k]) by {
        assert(digit(x[k]));
    }
    assert forall|k: int| 0 <= k < y.len() implies !seps.contains(#[trigger] y[k]) by {
        assert(digit(y[k]));
    }
    a_text_splits_at_its_separators(x, '-', y, seps);
    a_text_splits_at_its_separators(y, '-', y, seps);
    assert(seq![x] + seq![y] =~= seq![x, y]);
}

/// Choosing changes only what is chosen: all files, none, or those that were
/// not; the other way round twice is as it was.
pub proof fn choosing_keeps_the_files(s: RenamerView, chosen: bool, i: int)
    requires
        0 <= i < s.rows.len(),
    ensures
        s.all_chosen(chosen).rows.len() == s.rows.len(),
        s.all_chosen(chosen).rows[i].0 == s.rows[i].0,
        s.all_chosen(chosen).rows[i].1 == chosen,
        s.inverted().rows.len() == s.rows.len(),
        s.inverted().rows[i].0 == s.rows[i].0,
        s.inverted().rows[i].1 != s.rows[i].1,
        s.inverted().inverted() == s,
        s.all_chosen(chosen).inverted() == s.all_chosen(!chosen),
        (RenamerView { rows: s.rows, ..s.all_chosen(chosen) }) == s,
        (RenamerView { rows: s.rows, ..s.inverted() }) == s,
{
    assert(s.inverted().inverted().rows =~= s.rows);
    assert(s.all_chosen(chosen).inverted().rows =~= s.all_chosen(!chosen).rows);
}

/// Of two names that differ in a number, the one with the smaller compares as
/// the lesser, and the other as the greater; a name is equal to itself.
pub proof fn names_compare_by_their_numbers(n: nat, m: nat, a: Seq<char>, b: Seq<char>)
    requires
        n < m,
        a.len() == 0 || !digit(a[0]),
        b.len() == 0 || !digit(b[0]),
    ensures
        natural_of(digits_of(n) + a, digits_of(m) + b) is Less,
        natural_of(digits_of(m) + b, digits_of(n) + a) is Greater,
        natural_of(a, a) is Equal,
        natural_of(a, b) is Less <==> natural_of(b, a) is Greater,
        natural_of(a, b) is Less <==> sooner(a, b),
{
    names_go_by_their_numbers(n, m, 'a', 'b', a, b);
    at_most_one_name_goes_first(digits_of(n) + a, digits_of(m) + b);
    at_most_one_name_goes_first(a, b);
    no_name_goes_before_itself(a);
}

/// What is shown of a plan says, word by word, how many files change, of how
/// many, and how many cannot where any cannot.
pub proof fn a_status_says_how_many(chosen: nat, changing: nat, problems: nat)
    ensures
        ({
            let words = split_of(status_of(chosen, changing, problems), seq![' ']);
            &&& words.len() == if problems > 0 {
                6nat
            } else {
                4
            }
            &&& words[0] == digits_of(changing)
            &&& words[2] == digits_of(chosen)
            &&& problems > 0 ==> words[4] == digits_of(problems)
            &&& words[1] == "of"@
            &&& problems == 0 ==> words[3] == "change"@
            &&& problems > 0 ==> words[3] == "change,"@ && words[5] == "cannot"@
        }),
{
    reveal_strlit(" of ");
    reveal_strlit("of");
    reveal_strlit(" change");
    reveal_strlit("change");
    reveal_strlit(", ");
    reveal_strlit("change,");
    reveal_strlit(" cannot");
    reveal_strlit("cannot");
    let (a, b, c) = (digits_of(changing), digits_of(chosen), digits_of(problems));
    let all = status_of(chosen, changing, problems);
    let gap = seq![' '];
    lemma_no_gap(changing);
    lemma_no_gap(chosen);
    lemma_no_gap(problems);
    if problems == 0 {
        assert(all =~= a + gap + ("of"@ + gap + (b + gap + "change"@)));
        lemma_first_word(b, "change"@);
        lemma_first_word("of"@, b + gap + "change"@);
        lemma_first_word(a, "of"@ + gap + (b + gap + "change"@));
        lemma_one_word("change"@);
    } else {
        let d = c + gap + "cannot"@;
        let e = "change,"@ + gap + d;
        let g = b + gap + e;
        assert(all =~= a + gap + ("of"@ + gap + g));
        lemma_first_word(c, "cannot"@);
        lemma_first_word("change,"@, d);
        lemma_first_word(b, e);
        lemma_first_word("of"@, g);
        lemma_first_word(a, "of"@ + gap + g);
        lemma_one_word("cannot"@);
    }
}

proof fn lemma_no_gap(n: nat)
    ensures
        no_gap(digits_of(n)),
{
    digits_read_as_their_number(n);
    let s = digits_of(n);
    assert forall|i: int| 0 <= i < s.len() implies #[trigger] s[i] != ' ' by {
        assert(digit(s[i]));
    }
}

spec fn no_gap(s: Seq<char>) -> bool {
    forall|i: int| 0 <= i < s.len() ==> #[trigger] s[i] != ' '
}

proof fn lemma_one_word(a: Seq<char>)
    requires
        no_gap(a),
    ensures
        split_of(a, seq![' ']) == seq![a],
{
    let seps = seq![' '];
    assert forall|i: int| 0 <= i < a.len() implies !seps.contains(#[trigger] a[i]) by {}
    a_text_splits_at_its_separators(a, ' ', a, seps);
}

proof fn lemma_first_word(a: Seq<char>, b: Seq<char>)
    requires
        no_gap(a),
    ensures
        split_of(a + seq![' '] + b, seq![' ']) == seq![a] + split_of(b, seq![' ']),
{
    let seps = seq![' '];
    assert(seps[0] == ' ');
    assert(seps.contains(seps[0]));
    lemma_one_word(a);
    a_text_splits_at_its_separators(a, ' ', b, seps);
}

} // verus!
