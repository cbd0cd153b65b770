//! What the Metadata and Markers views can change in a WAV file. Values are
//! kept as the text their fields show; saving writes only what was changed,
//! and every field left alone goes back byte for byte.

use crate::bytes::{cut, le8, put, put_u64};
use crate::meta::{escape, escape_of, INFO_FIELDS};
use crate::rename::{replace_literal, replaced_of};
use crate::save::{no_changes, same_markers, same_named, Changes, ChangesView};
use crate::text::{
    chars, decimal, digits_of, extend, parse_number, parsed, part, put_padded, runs, same,
    split_chars, split_of, string, trim, trim_chars, trim_of, zero_padded,
};
use crate::wav::{
    first_index, lemma_first_index, marks, named, sort_markers, sort_marks, text_view, zeros,
    Marker, MarkerView, Wav, WavView,
};
use crate::xml::{
    document_of, elements_are_nested, nested, parse_xml, shows, shows_maybe, Element, Node, Span,
};
use vstd::prelude::*;
use vstd::utf8::encode_utf8;

verus! {

/// The Broadcast WAV text fields: label, and where its bytes start and end
/// in the chunk.
pub const BEXT_FIELDS: [(&'static str, usize, usize); 5] = [
    ("Description", 0, 256),
    ("Originator", 256, 288),
    ("Reference", 288, 320),
    ("Date", 320, 330),
    ("Time", 330, 338),
];

/// Where the time reference starts in the chunk: eight bytes.
pub const TIME_REFERENCE: usize = 338;

/// Where the version starts in the chunk: two bytes.
pub const VERSION: usize = 346;

/// The bytes of the chunk before its coding history.
pub const BEXT_SIZE: usize = 602;

/// What a WAV file's fields show.
#[derive(Debug, PartialEq)]
pub struct Edits {
    /// In `BEXT_FIELDS` order.
    pub bext: [String; 5],
    /// Time of day at the first sample, `hh:mm:ss.sss`, or empty.
    pub start: String,
    pub coding_history: String,
    /// RIFF INFO: the fields editors know, then any others the file has.
    pub info: Vec<([u8; 4], String)>,
    /// iXML fields: label, and value.
    pub ixml: Vec<(String, String)>,
    pub markers: Vec<Marker>,
    pub held: Held,
}

/// What the file held, for writing changes into.
#[derive(Debug, PartialEq)]
pub struct Held {
    sample_rate: u32,
    bext: Option<Vec<u8>>,
    ixml: Option<String>,
    /// Where each iXML field's text sits in `ixml`, and its element's name.
    ixml_spans: Vec<(Span, String)>,
}

#[verifier::ext_equal]
pub struct HeldView {
    pub sample_rate: u32,
    pub bext: Option<Seq<u8>>,
    pub ixml: Option<Seq<char>>,
    pub ixml_spans: Seq<(Span, Seq<char>)>,
}

#[verifier::ext_equal]
pub struct EditsView {
    pub bext: Seq<Seq<char>>,
    pub start: Seq<char>,
    pub coding_history: Seq<char>,
    pub info: Seq<(Seq<u8>, Seq<char>)>,
    pub ixml: Seq<(Seq<char>, Seq<char>)>,
    pub markers: Seq<MarkerView>,
    pub held: HeldView,
}

/// Pairs of texts by their views.
pub open spec fn text_pairs(s: Seq<(String, String)>) -> Seq<(Seq<char>, Seq<char>)> {
    s.map_values(|p: (String, String)| (p.0@, p.1@))
}

/// Texts by their views.
pub open spec fn texts(s: Seq<String>) -> Seq<Seq<char>> {
    s.map_values(|t: String| t@)
}

/// Places by their views.
pub open spec fn placed(s: Seq<(Span, String)>) -> Seq<(Span, Seq<char>)> {
    s.map_values(|p: (Span, String)| (p.0, p.1@))
}

pub open spec fn bytes_view(b: Option<Vec<u8>>) -> Option<Seq<u8>> {
    match b {
        Some(b) => Some(b@),
        None => None,
    }
}

impl View for Held {
    type V = HeldView;

    closed spec fn view(&self) -> HeldView {
        HeldView {
            sample_rate: self.sample_rate,
            bext: bytes_view(self.bext),
            ixml: text_view(self.ixml),
            ixml_spans: placed(self.ixml_spans@),
        }
    }
}

impl Held {
    /// The fields' places stand in the document, one after the other.
    #[verifier::type_invariant]
    spec fn well_placed(self) -> bool {
        in_places(self@.ixml_spans, document_text(self@.ixml).len() as int)
    }
}

/// The document, or no text where there is none.
pub open spec fn document_text(ixml: Option<Seq<char>>) -> Seq<char> {
    match ixml {
        Some(x) => x,
        None => Seq::empty(),
    }
}

impl View for Edits {
    type V = EditsView;

    open spec fn view(&self) -> EditsView {
        EditsView {
            bext: texts(self.bext@),
            start: self.start@,
            coding_history: self.coding_history@,
            info: named(self.info@),
            ixml: text_pairs(self.ixml@),
            markers: marks(self.markers@),
            held: self.held@,
        }
    }
}

/// Whether places stand one after the other, up to `end`.
pub open spec fn in_places(spans: Seq<(Span, Seq<char>)>, end: int) -> bool {
    &&& forall|k: int|
        0 <= k < spans.len() ==> (#[trigger] spans[k]).0.from() <= spans[k].0.to() <= end
    &&& forall|j: int, k: int|
        0 <= j < k < spans.len() ==> (#[trigger] spans[j]).0.to() <= (
        #[trigger] spans[k]).0.from()
}

/// Line ends as a text field shows them.
pub open spec fn lf_of(s: Seq<char>) -> Seq<char> {
    replaced_of(replaced_of(s, seq!['\r', '\n'], seq!['\n']), seq!['\r'], seq!['\n'])
}

/// Line ends as Broadcast WAV writes them.
pub open spec fn crlf_of(s: Seq<char>) -> Seq<char> {
    replaced_of(lf_of(s), seq!['\n'], seq!['\r', '\n'])
}

fn lf_chars(text: &str) -> (r: Vec<char>)
    ensures
        r@ == lf_of(text@),
{
    let crlf: [char; 2] = ['\r', '\n'];
    let cr: [char; 1] = ['\r'];
    let lf: [char; 1] = ['\n'];
    proof {
        assert(crlf@ =~= seq!['\r', '\n']);
        assert(cr@ =~= seq!['\r']);
        assert(lf@ =~= seq!['\n']);
    }
    let v = chars(text);
    let once = replace_literal(v.as_slice(), crlf.as_slice(), lf.as_slice());
    replace_literal(once.as_slice(), cr.as_slice(), lf.as_slice())
}

/// Line ends as a text field shows them.
pub fn lf(text: &str) -> (r: String)
    ensures
        r@ == lf_of(text@),
{
    let v = lf_chars(text);
    string(v.as_slice())
}

/// Line ends as Broadcast WAV writes them.
pub fn crlf(text: &str) -> (r: String)
    ensures
        r@ == crlf_of(text@),
{
    let crlf: [char; 2] = ['\r', '\n'];
    let lf: [char; 1] = ['\n'];
    proof {
        assert(crlf@ =~= seq!['\r', '\n']);
        assert(lf@ =~= seq!['\n']);
    }
    let v = lf_chars(text);
    let out = replace_literal(v.as_slice(), lf.as_slice(), crlf.as_slice());
    string(out.as_slice())
}

/// Milliseconds into the day of a count of samples since midnight.
pub open spec fn day_ms(samples: u64, rate: u32) -> nat {
    let rate = if rate == 0 {
        1nat
    } else {
        rate as nat
    };
    ((samples as nat * 1000 / rate) as u64 % 86_400_000) as nat
}

/// `samples` since midnight as `hh:mm:ss.sss`.
pub open spec fn clock_of(samples: u64, rate: u32) -> Seq<char> {
    let ms = day_ms(samples, rate);
    zero_padded(digits_of(ms / 3_600_000), 2) + seq![':'] + zero_padded(
        digits_of(ms / 60_000 % 60),
        2,
    ) + seq![':'] + zero_padded(digits_of(ms / 1000 % 60), 2) + seq!['.'] + zero_padded(
        digits_of(ms % 1000),
        3,
    )
}

/// `samples` since midnight as `hh:mm:ss.sss`.
pub fn clock(samples: u64, rate: u32) -> (r: String)
    ensures
        r@ == clock_of(samples, rate),
{
    let per: u128 = if rate == 0 {
        1
    } else {
        rate as u128
    };
    proof {
        assert(samples as nat * 1000 / per as nat <= samples as nat * 1000) by (nonlinear_arith)
            requires
                per >= 1,
        ;
    }
    let whole: u128 = (samples as u128) * 1000 / per;
    #[verifier::truncate]
    let ms: u64 = (whole as u64) % 86_400_000;
    let mut out: Vec<char> = Vec::new();
    put_padded(&mut out, ms / 3_600_000, 2);
    out.push(':');
    put_padded(&mut out, ms / 60_000 % 60, 2);
    out.push(':');
    put_padded(&mut out, ms / 1000 % 60, 2);
    out.push('.');
    put_padded(&mut out, ms % 1000, 3);
    assert(out@ =~= clock_of(samples, rate));
    string(out.as_slice())
}

/// A field of the document: its label, its value, where its text stands, and
/// its element's name.
pub struct LeafView {
    pub label: Seq<char>,
    pub value: Seq<char>,
    pub span: Span,
    pub name: Seq<char>,
}

struct Leaf {
    label: String,
    value: String,
    span: Span,
    name: String,
}

impl View for Leaf {
    type V = LeafView;

    closed spec fn view(&self) -> LeafView {
        LeafView { label: self.label@, value: self.value@, span: self.span, name: self.name@ }
    }
}

spec fn leaf_views(s: Seq<Leaf>) -> Seq<LeafView> {
    s.map_values(|l: Leaf| l@)
}

/// How many of the first `n` children have this name.
pub open spec fn namesakes(children: Seq<Node>, name: Seq<char>, n: int) -> nat
    decreases n,
{
    if n <= 0 {
        0
    } else {
        namesakes(children, name, n - 1) + if children[n - 1].name == name {
            1nat
        } else {
            0
        }
    }
}

/// What a child is called among its siblings: its name, with its number
/// where several share it.
pub open spec fn numbered_of(children: Seq<Node>, i: int) -> Seq<char> {
    let name = children[i].name;
    if namesakes(children, name, children.len() as int) > 1 {
        name + seq![' '] + digits_of(namesakes(children, name, i) + 1)
    } else {
        name
    }
}

/// A label inside another.
pub open spec fn inside(outer: Option<Seq<char>>, label: Seq<char>) -> Seq<char> {
    match outer {
        Some(o) => o + seq![' ', '/', ' '] + label,
        None => label,
    }
}

/// The fields in an element of this label: itself, where it holds no
/// elements, or theirs.
pub open spec fn leaves_of(n: Node, label: Seq<char>) -> Seq<LeafView>
    decreases n, 0int,
{
    if n.children.len() == 0 {
        seq![LeafView { label, value: trim_of(n.text), span: n.span, name: n.name }]
    } else {
        leaves_upto(n.children, Some(label), n.children.len() as int)
    }
}

/// The fields in the first `k` of these elements.
pub open spec fn leaves_upto(children: Seq<Node>, outer: Option<Seq<char>>, k: int) -> Seq<LeafView>
    decreases children, k,
{
    if k <= 0 || k > children.len() {
        Seq::empty()
    } else {
        leaves_upto(children, outer, k - 1) + leaves_of(
            children[k - 1],
            inside(outer, numbered_of(children, k - 1)),
        )
    }
}

/// The fields of a document.
pub open spec fn document_leaves(root: Option<Node>) -> Seq<LeafView> {
    match root {
        Some(r) => leaves_upto(r.children, None, r.children.len() as int),
        None => Seq::empty(),
    }
}

/// Fields by their places.
pub open spec fn leaf_places(s: Seq<LeafView>) -> Seq<(Span, Seq<char>)> {
    s.map_values(|l: LeafView| (l.span, l.name))
}

/// Whether places stand one after the other, from `start` up to `end`.
spec fn between(spans: Seq<(Span, Seq<char>)>, start: int, end: int) -> bool {
    in_places(spans, end) && forall|k: int|
        0 <= k < spans.len() ==> start <= (#[trigger] spans[k]).0.from()
}

proof fn lemma_leaves(n: Node, label: Seq<char>)
    requires
        nested(n),
    ensures
        between(leaf_places(leaves_of(n, label)), n.span.from() as int, n.span.to() as int),
    decreases n, 0int,
{
    if n.children.len() > 0 {
        lemma_leaves_upto(
            n.children,
            Some(label),
            n.children.len() as int,
            n.span.from() as int,
            n.span.to() as int,
        );
    }
}

proof fn lemma_leaves_upto(
    children: Seq<Node>,
    outer: Option<Seq<char>>,
    k: int,
    start: int,
    end: int,
)
    requires
        0 <= k <= children.len(),
        start <= end,
        forall|i: int|
            0 <= i < children.len() ==> nested(#[trigger] children[i]) && start
                <= children[i].span.from() && children[i].span.to() <= end,
        forall|i: int, j: int|
            0 <= i < j < children.len() ==> (#[trigger] children[i]).span.to() <= (
            #[trigger] children[j]).span.from(),
    ensures
        between(
            leaf_places(leaves_upto(children, outer, k)),
            start,
            if k == 0 {
                start
            } else {
                children[k - 1].span.to() as int
            },
        ),
    decreases children, k,
{
    if k > 0 {
        let label = inside(outer, numbered_of(children, k - 1));
        lemma_leaves_upto(children, outer, k - 1, start, end);
        lemma_leaves(children[k - 1], label);
        let a = leaves_upto(children, outer, k - 1);
        let b = leaves_of(children[k - 1], label);
        assert(leaf_places(a + b) =~= leaf_places(a) + leaf_places(b));
        if k > 1 {
            assert(children[k - 2].span.to() <= children[k - 1].span.from());
        }
    }
}

/// The places of a document's fields stand in it, one after the other.
pub proof fn fields_stand_in_the_document(ixml: Seq<char>)
    requires
        ixml.len() <= usize::MAX,
    ensures
        in_places(leaf_places(document_leaves(document_of(ixml))), ixml.len() as int),
{
    elements_are_nested(ixml);
    match document_of(ixml) {
        Some(r) => {
            lemma_leaves_upto(
                r.children,
                None,
                r.children.len() as int,
                r.span.from() as int,
                r.span.to() as int,
            );
        },
        None => {},
    }
}

fn count_namesakes(children: &Vec<Element>, name: &str, n: usize, Ghost(nodes): Ghost<Seq<Node>>) -> (r: usize)
    requires
        n <= children@.len() == nodes.len(),
        forall|i: int| 0 <= i < children@.len() ==> shows(#[trigger] children@[i], nodes[i]),
    ensures
        r == namesakes(nodes, name@, n as int),
        r <= n,
{
    let mut count: usize = 0;
    let mut i: usize = 0;
    while i < n
        invariant
            i <= n <= children@.len() == nodes.len(),
            count <= i,
            forall|i: int| 0 <= i < children@.len() ==> shows(#[trigger] children@[i], nodes[i]),
            count == namesakes(nodes, name@, i as int),
        decreases n - i,
    {
        assert(shows(children@[i as int], nodes[i as int]));
        if same(children[i].name.as_str(), name) {
            count = count + 1;
        }
        i = i + 1;
    }
    count
}

/// What a child is called among its siblings: its name, with its number
/// where several share it.
fn numbered(children: &Vec<Element>, i: usize, Ghost(nodes): Ghost<Seq<Node>>) -> (r: Vec<char>)
    requires
        i < children@.len() == nodes.len(),
        forall|i: int| 0 <= i < children@.len() ==> shows(#[trigger] children@[i], nodes[i]),
    ensures
        r@ == numbered_of(nodes, i as int),
{
    assert(shows(children@[i as int], nodes[i as int]));
    let name = children[i].name.as_str();
    let mut out = chars(name);
    if count_namesakes(children, name, children.len(), Ghost(nodes)) > 1 {
        let nth: usize = count_namesakes(children, name, i, Ghost(nodes)) + 1;
        let d = decimal(nth as u64);
        out.push(' ');
        extend(&mut out, d.as_slice());
    }
    assert(out@ =~= numbered_of(nodes, i as int));
    out
}

fn collect_leaves(element: &Element, label: &[char], out: &mut Vec<Leaf>, Ghost(n): Ghost<Node>)
    requires
        shows(*element, n),
    ensures
        leaf_views(final(out)@) == leaf_views(old(out)@) + leaves_of(n, label@),
    decreases element, 0int,
{
    if element.children.len() == 0 {
        let leaf = Leaf {
            label: string(label),
            value: trim(element.text.as_str()),
            span: element.span,
            name: element.name.clone(),
        };
        let ghost before = leaf_views(out@);
        out.push(leaf);
        assert(leaf_views(out@) =~= before + leaves_of(n, label@));
        return;
    }
    collect_all(&element.children, Some(label), out, Ghost(n.children));
}

pub open spec fn slice_view(s: Option<&[char]>) -> Option<Seq<char>> {
    match s {
        Some(s) => Some(s@),
        None => None,
    }
}

fn collect_all(
    children: &Vec<Element>,
    outer: Option<&[char]>,
    out: &mut Vec<Leaf>,
    Ghost(nodes): Ghost<Seq<Node>>,
)
    requires
        children@.len() == nodes.len(),
        forall|i: int| 0 <= i < children@.len() ==> shows(#[trigger] children@[i], nodes[i]),
    ensures
        leaf_views(final(out)@) == leaf_views(old(out)@) + leaves_upto(
            nodes,
            slice_view(outer),
            nodes.len() as int,
        ),
    decreases children, 0int,
{
    let ghost before = leaf_views(out@);
    let ghost o = slice_view(outer);
    let mut i: usize = 0;
    assert(before + leaves_upto(nodes, o, 0) =~= before);
    while i < children.len()
        invariant
            i <= children@.len() == nodes.len(),
            o == slice_view(outer),
            forall|i: int| 0 <= i < children@.len() ==> shows(#[trigger] children@[i], nodes[i]),
            leaf_views(out@) == before + leaves_upto(nodes, o, i as int),
        decreases children@.len() - i,
    {
        let own = numbered(children, i, Ghost(nodes));
        let label = match outer {
            Some(outer) => {
                let mut label: Vec<char> = Vec::new();
                extend(&mut label, outer);
                label.push(' ');
                label.push('/');
                label.push(' ');
                extend(&mut label, own.as_slice());
                label
            },
            None => own,
        };
        assert(label@ =~= inside(o, numbered_of(nodes, i as int)));
        assert(shows(children@[i as int], nodes[i as int]));
        assert(decreases_to!(children => children@[i as int]));
        collect_leaves(&children[i], label.as_slice(), out, Ghost(nodes[i as int]));
        i = i + 1;
        assert(leaf_views(out@) =~= before + leaves_upto(nodes, o, i as int));
    }
}

/// The id of a field editors know.
pub open spec fn known_id(k: int) -> Seq<u8> {
    INFO_FIELDS@[k].0@
}

pub open spec fn has_id(id: Seq<u8>) -> spec_fn((Seq<u8>, Seq<char>)) -> bool {
    |e: (Seq<u8>, Seq<char>)| e.0 == id
}

/// The first `k` fields editors know, each with the first entry for it or
/// empty, and the entries that are left.
pub open spec fn known_info(
    info: Seq<(Seq<u8>, Seq<char>)>,
    k: int,
) -> (Seq<(Seq<u8>, Seq<char>)>, Seq<(Seq<u8>, Seq<char>)>)
    decreases k,
{
    if k <= 0 {
        (Seq::empty(), info)
    } else {
        let (done, left) = known_info(info, k - 1);
        let at = first_index(left, has_id(known_id(k - 1)), 0);
        if at < left.len() {
            (done.push((known_id(k - 1), left[at].1)), left.remove(at))
        } else {
            (done.push((known_id(k - 1), Seq::empty())), left)
        }
    }
}

/// Each field editors know, with the file's first entry for it, then every
/// entry left in the file's order, a second of a kind included.
pub open spec fn shown_info(info: Seq<(Seq<u8>, Seq<char>)>) -> Seq<(Seq<u8>, Seq<char>)> {
    let (done, left) = known_info(info, INFO_FIELDS@.len() as int);
    done + left
}

fn copy_named(s: &Vec<([u8; 4], String)>) -> (r: Vec<([u8; 4], String)>)
    ensures
        named(r@) == named(s@),
{
    let mut out: Vec<([u8; 4], String)> = Vec::new();
    let mut i: usize = 0;
    while i < s.len()
        invariant
            i <= s@.len(),
            named(out@) == named(s@).take(i as int),
        decreases s@.len() - i,
    {
        let ghost before = named(out@);
        let e = (s[i].0, s[i].1.clone());
        assert((e.0@, e.1@) == named(s@)[i as int]);
        out.push(e);
        assert(named(out@) =~= before.push(named(s@)[i as int]));
        i = i + 1;
        assert(named(out@) =~= named(s@).take(i as int));
    }
    assert(named(s@).take(i as int) =~= named(s@));
    out
}

fn info_fields(info: &Vec<([u8; 4], String)>) -> (r: Vec<([u8; 4], String)>)
    ensures
        named(r@) == shown_info(named(info@)),
{
    let ghost all = named(info@);
    let mut left = copy_named(info);
    let mut done: Vec<([u8; 4], String)> = Vec::new();
    let mut k: usize = 0;
    let fields = INFO_FIELDS;
    let n: usize = fields.len();
    assert(named(done@) =~= Seq::<(Seq<u8>, Seq<char>)>::empty());
    while k < n
        invariant
            fields == INFO_FIELDS,
            n == fields@.len(),
            k <= n,
            known_info(all, k as int) == (named(done@), named(left@)),
        decreases n - k,
    {
        let id = fields[k].0;
        let ghost p = has_id(id@);
        let ghost l = named(left@);
        let ghost d = named(done@);
        assert(id@ == known_id(k as int));
        let mut at: usize = 0;
        while at < left.len() && !crate::bytes::same4(&left[at].0, &id)
            invariant
                at <= left@.len(),
                l == named(left@),
                p == has_id(id@),
                first_index(l, p, 0) == first_index(l, p, at as int),
            decreases left@.len() - at,
        {
            assert(l[at as int] == (left@[at as int].0@, left@[at as int].1@));
            at = at + 1;
        }
        assert(l.len() == left@.len());
        if at < left.len() {
            assert(l[at as int] == (left@[at as int].0@, left@[at as int].1@));
            let e = left.remove(at);
            done.push((id, e.1));
            assert(named(left@) =~= l.remove(at as int));
            assert(named(done@) =~= d.push((id@, l[at as int].1)));
        } else {
            let none = String::new();
            assert(none@ =~= Seq::<char>::empty());
            done.push((id, none));
            assert(named(done@) =~= d.push((id@, Seq::<char>::empty())));
        }
        k = k + 1;
    }
    let ghost d = named(done@);
    let ghost l = named(left@);
    done.append(&mut left);
    assert(named(done@) =~= d + l);
    done
}

pub open spec fn has_name(name: Seq<char>) -> spec_fn(Node) -> bool {
    |c: Node| c.name == name
}

/// The first element in this one with this name.
pub open spec fn child_of(n: Node, name: Seq<char>) -> Option<Node> {
    let at = first_index(n.children, has_name(name), 0);
    if at < n.children.len() {
        Some(n.children[at])
    } else {
        None
    }
}

/// The number that a child of this name holds.
pub open spec fn number_of(n: Node, name: Seq<char>) -> Option<nat> {
    match child_of(n, name) {
        Some(c) => parsed(trim_of(c.text), 10, u64::MAX as nat),
        None => None,
    }
}

/// The number that a child of this name holds, or 0.
pub open spec fn number_or_0(n: Node, name: Seq<char>) -> u64 {
    match number_of(n, name) {
        Some(n) => n as u64,
        None => 0,
    }
}

/// The mark that an iXML `SYNC_POINT` stands for, where it has a frame.
pub open spec fn sync_point_of(n: Node, id: u32) -> Option<MarkerView> {
    match number_of(n, "SYNC_POINT_LOW"@) {
        Some(low) => {
            let frame = (number_or_0(n, "SYNC_POINT_HIGH"@) << 32u64) | (low as u64);
            Some(
                MarkerView {
                    id,
                    frame: frame as usize,
                    length: number_or_0(n, "SYNC_POINT_EVENT_DURATION"@) as usize,
                    label: match child_of(n, "SYNC_POINT_COMMENT"@) {
                        Some(c) => trim_of(c.text),
                        None => Seq::empty(),
                    },
                    note: Seq::empty(),
                },
            )
        },
        None => None,
    }
}

/// The marks of the first `k` of these elements, numbered from 1.
pub open spec fn sync_points_upto(children: Seq<Node>, k: int) -> Seq<MarkerView>
    decreases k,
{
    if k <= 0 {
        Seq::empty()
    } else {
        let done = sync_points_upto(children, k - 1);
        match sync_point_of(children[k - 1], (done.len() + 1) as u32) {
            Some(m) => if children[k - 1].name == "SYNC_POINT"@ {
                done.push(m)
            } else {
                done
            },
            None => done,
        }
    }
}

/// iXML `SYNC_POINT`s as markers.
pub open spec fn sync_points_of(root: Option<Node>) -> Seq<MarkerView> {
    match root {
        Some(r) => match child_of(r, "SYNC_POINT_LIST"@) {
            Some(list) => sort_marks(
                sync_points_upto(list.children, list.children.len() as int),
            ),
            None => Seq::empty(),
        },
        None => Seq::empty(),
    }
}

fn find_child<'a>(e: &'a Element, name: &str, Ghost(n): Ghost<Node>) -> (r: Option<&'a Element>)
    requires
        shows(*e, n),
    ensures
        match (r, child_of(n, name@)) {
            (Some(c), Some(m)) => shows(*c, m),
            (None, None) => true,
            _ => false,
        },
{
    let ghost p = has_name(name@);
    let mut i: usize = 0;
    while i < e.children.len()
        invariant
            i <= e.children@.len() == n.children.len(),
            shows(*e, n),
            p == has_name(name@),
            first_index(n.children, p, 0) == first_index(n.children, p, i as int),
        decreases e.children@.len() - i,
    {
        assert(shows(e.children@[i as int], n.children[i as int]));
        if same(e.children[i].name.as_str(), name) {
            return Some(&e.children[i]);
        }
        i = i + 1;
    }
    None
}

fn child_number(e: &Element, name: &str, Ghost(n): Ghost<Node>) -> (r: Option<u64>)
    requires
        shows(*e, n),
    ensures
        match r {
            Some(v) => number_of(n, name@) == Some(v as nat),
            None => number_of(n, name@) is None,
        },
{
    match find_child(e, name, Ghost(n)) {
        Some(c) => {
            let v = chars(c.text.as_str());
            let t = trim_chars(v.as_slice());
            parse_number(t.as_slice(), 10, 0xFFFF_FFFF_FFFF_FFFF)
        },
        None => None,
    }
}

fn child_number_or_0(e: &Element, name: &str, Ghost(n): Ghost<Node>) -> (r: u64)
    requires
        shows(*e, n),
    ensures
        r == number_or_0(n, name@),
{
    match child_number(e, name, Ghost(n)) {
        Some(v) => v,
        None => 0,
    }
}

fn sync_point(e: &Element, id: u32, Ghost(n): Ghost<Node>) -> (r: Option<Marker>)
    requires
        shows(*e, n),
    ensures
        match (r, sync_point_of(n, id)) {
            (Some(m), Some(v)) => m@ == v,
            (None, None) => true,
            _ => false,
        },
{
    let low: u64 = match child_number(e, "SYNC_POINT_LOW", Ghost(n)) {
        Some(low) => low,
        None => {
            return None;
        },
    };
    let high: u64 = child_number_or_0(e, "SYNC_POINT_HIGH", Ghost(n));
    let frame: u64 = (high << 32u64) | low;
    let length: u64 = child_number_or_0(e, "SYNC_POINT_EVENT_DURATION", Ghost(n));
    let label = match find_child(e, "SYNC_POINT_COMMENT", Ghost(n)) {
        Some(c) => trim(c.text.as_str()),
        None => String::new(),
    };
    let m = Marker {
        id,
        frame: #[verifier::truncate] (frame as usize),
        length: #[verifier::truncate] (length as usize),
        label,
        note: String::new(),
    };
    assert(m@.note =~= Seq::<char>::empty());
    proof {
        if child_of(n, "SYNC_POINT_COMMENT"@) is None {
            assert(m@.label =~= Seq::<char>::empty());
        }
    }
    Some(m)
}

/// iXML `SYNC_POINT`s as markers.
fn sync_points(root: &Option<Element>, Ghost(node): Ghost<Option<Node>>) -> (r: Vec<Marker>)
    requires
        shows_maybe(*root, node),
    ensures
        marks(r@) == sync_points_of(node),
{
    let none: Vec<Marker> = Vec::new();
    assert(marks(none@) =~= Seq::<MarkerView>::empty());
    let root = match root {
        Some(root) => root,
        None => {
            return none;
        },
    };
    let ghost r = node->0;
    let list = match find_child(root, "SYNC_POINT_LIST", Ghost(r)) {
        Some(list) => list,
        None => {
            return none;
        },
    };
    let ghost n = child_of(r, "SYNC_POINT_LIST"@)->0;
    let mut found: Vec<Marker> = Vec::new();
    let mut i: usize = 0;
    assert(marks(found@) =~= Seq::<MarkerView>::empty());
    let len: usize = list.children.len();
    while i < len
        invariant
            len == list.children@.len() == n.children.len(),
            i <= len,
            shows(*list, n),
            found@.len() <= i,
            marks(found@) == sync_points_upto(n.children, i as int),
        decreases len - i,
    {
        let ghost before = marks(found@);
        assert(before.len() == found@.len());
        assert(shows(list.children@[i as int], n.children[i as int]));
        let count: usize = found.len() + 1;
        let id: u32 = #[verifier::truncate] (count as u32);
        if same(list.children[i].name.as_str(), "SYNC_POINT") {
            match sync_point(&list.children[i], id, Ghost(n.children[i as int])) {
                Some(m) => {
                    let ghost v = m@;
                    found.push(m);
                    assert(marks(found@) =~= before.push(v));
                },
                None => {},
            }
        }
        i = i + 1;
    }
    sort_markers(found)
}

/// What the fields of a file show.
pub open spec fn edits_of(w: WavView) -> EditsView {
    let root = match w.ixml {
        Some(x) => document_of(x),
        None => None,
    };
    let leaves = document_leaves(root);
    EditsView {
        bext: match w.bext {
            Some(b) => seq![
                lf_of(b.description),
                lf_of(b.originator),
                lf_of(b.originator_reference),
                lf_of(b.origination_date),
                lf_of(b.origination_time),
            ],
            None => seq![
                Seq::empty(),
                Seq::empty(),
                Seq::empty(),
                Seq::empty(),
                Seq::empty(),
            ],
        },
        start: match w.bext {
            Some(b) => if b.time_reference > 0 {
                clock_of(b.time_reference, w.sample_rate)
            } else {
                Seq::empty()
            },
            None => Seq::empty(),
        },
        coding_history: match w.bext {
            Some(b) => lf_of(b.coding_history),
            None => Seq::empty(),
        },
        info: shown_info(w.info),
        ixml: leaves.map_values(|l: LeafView| (l.label, l.value)),
        // A `cue ` chunk, even an empty one, is where marks are kept; without
        // one, sync points in iXML are shown instead.
        markers: match w.cues {
            Some(m) => m,
            None => sync_points_of(root),
        },
        held: HeldView {
            sample_rate: w.sample_rate,
            bext: match w.bext {
                Some(b) => Some(b.raw),
                None => None,
            },
            ixml: w.ixml,
            ixml_spans: leaf_places(leaves),
        },
    }
}

fn copy_markers(s: &Vec<Marker>) -> (r: Vec<Marker>)
    ensures
        marks(r@) == marks(s@),
{
    let mut out: Vec<Marker> = Vec::new();
    let mut i: usize = 0;
    while i < s.len()
        invariant
            i <= s@.len(),
            marks(out@) == marks(s@).take(i as int),
        decreases s@.len() - i,
    {
        let ghost before = marks(out@);
        let m = s[i].clone();
        assert(m@ == marks(s@)[i as int]);
        out.push(m);
        assert(marks(out@) =~= before.push(marks(s@)[i as int]));
        i = i + 1;
        assert(marks(out@) =~= marks(s@).take(i as int));
    }
    assert(marks(s@).take(i as int) =~= marks(s@));
    out
}

fn copy_bytes(b: &Vec<u8>) -> (r: Vec<u8>)
    ensures
        r@ == b@,
{
    let r = cut(b.as_slice(), 0, b.len());
    assert(r@ =~= b@);
    r
}

impl Held {
    /// The places that these leaves stand in.
    fn new(
        sample_rate: u32,
        bext: Option<Vec<u8>>,
        ixml: Option<String>,
        leaves: &Vec<Leaf>,
    ) -> (r: Held)
        requires
            in_places(
                leaf_places(leaf_views(leaves@)),
                document_text(text_view(ixml)).len() as int,
            ),
        ensures
            r@ == (HeldView {
                sample_rate,
                bext: bytes_view(bext),
                ixml: text_view(ixml),
                ixml_spans: leaf_places(leaf_views(leaves@)),
            }),
    {
        let ghost all = leaf_places(leaf_views(leaves@));
        let mut ixml_spans: Vec<(Span, String)> = Vec::new();
        let mut i: usize = 0;
        while i < leaves.len()
            invariant
                i <= leaves@.len(),
                all == leaf_places(leaf_views(leaves@)),
                placed(ixml_spans@) == all.take(i as int),
            decreases leaves@.len() - i,
        {
            let ghost before = placed(ixml_spans@);
            let p = (leaves[i].span, leaves[i].name.clone());
            assert((p.0, p.1@) == all[i as int]);
            ixml_spans.push(p);
            assert(placed(ixml_spans@) =~= before.push(all[i as int]));
            i = i + 1;
            assert(placed(ixml_spans@) =~= all.take(i as int));
        }
        assert(all.take(i as int) =~= all);
        Held { sample_rate, bext, ixml, ixml_spans }
    }
}

impl Edits {
    /// What the fields of a file show.
    pub fn from_wav(w: &Wav) -> (r: Edits)
        ensures
            r@ == edits_of(w@),
    {
        let root = match &w.ixml {
            Some(x) => parse_xml(x.as_str()),
            None => None,
        };
        let ghost node = match w@.ixml {
            Some(x) => document_of(x),
            None => None,
        };
        let mut leaves: Vec<Leaf> = Vec::new();
        assert(leaf_views(leaves@) =~= Seq::<LeafView>::empty());
        match &root {
            Some(root) => {
                collect_all(&root.children, None, &mut leaves, Ghost(node->0.children));
            },
            None => {},
        }
        let ghost all = document_leaves(node);
        assert(leaf_views(leaves@) =~= all);
        proof {
            match w@.ixml {
                Some(x) => {
                    fields_stand_in_the_document(x);
                },
                None => {},
            }
        }
        let mut ixml: Vec<(String, String)> = Vec::new();
        let ghost shown = all.map_values(|l: LeafView| (l.label, l.value));
        let mut i: usize = 0;
        while i < leaves.len()
            invariant
                i <= leaves@.len(),
                leaf_views(leaves@) == all,
                shown == all.map_values(|l: LeafView| (l.label, l.value)),
                text_pairs(ixml@) == shown.take(i as int),
            decreases leaves@.len() - i,
        {
            let ghost before = text_pairs(ixml@);
            let p = (leaves[i].label.clone(), leaves[i].value.clone());
            assert(all[i as int] == leaves@[i as int]@);
            assert((p.0@, p.1@) == shown[i as int]);
            ixml.push(p);
            assert(text_pairs(ixml@) =~= before.push(shown[i as int]));
            i = i + 1;
            assert(text_pairs(ixml@) =~= shown.take(i as int));
        }
        assert(leaf_views(leaves@).len() == leaves@.len());
        assert(shown.take(i as int) =~= shown);
        let markers = match &w.cues {
            Some(m) => copy_markers(m),
            None => sync_points(&root, Ghost(node)),
        };
        let raw = match &w.bext {
            Some(b) => Some(copy_bytes(&b.raw)),
            None => None,
        };
        let document = match &w.ixml {
            Some(x) => Some(x.clone()),
            None => None,
        };
        let held = Held::new(w.sample_rate, raw, document, &leaves);
        let info = info_fields(&w.info);
        let r = match &w.bext {
            Some(b) => Edits {
                bext: [
                    lf(b.description.as_str()),
                    lf(b.originator.as_str()),
                    lf(b.originator_reference.as_str()),
                    lf(b.origination_date.as_str()),
                    lf(b.origination_time.as_str()),
                ],
                start: if b.time_reference > 0 {
                    clock(b.time_reference, w.sample_rate)
                } else {
                    String::new()
                },
                coding_history: lf(b.coding_history.as_str()),
                info,
                ixml,
                markers,
                held,
            },
            None => Edits {
                bext: [
                    String::new(),
                    String::new(),
                    String::new(),
                    String::new(),
                    String::new(),
                ],
                start: String::new(),
                coding_history: String::new(),
                info,
                ixml,
                markers,
                held,
            },
        };
        assert(r@.bext =~~= edits_of(w@).bext);
        assert(r@ =~~= edits_of(w@));
        r
    }
}

impl Clone for Held {
    fn clone(&self) -> (r: Self)
        ensures
            r@ == self@,
    {
        proof {
            use_type_invariant(self);
        }
        let bext = match &self.bext {
            Some(b) => Some(copy_bytes(b)),
            None => None,
        };
        let ixml = match &self.ixml {
            Some(x) => Some(x.clone()),
            None => None,
        };
        let mut ixml_spans: Vec<(Span, String)> = Vec::new();
        let ghost all = placed(self.ixml_spans@);
        let mut i: usize = 0;
        while i < self.ixml_spans.len()
            invariant
                i <= self.ixml_spans@.len(),
                all == placed(self.ixml_spans@),
                placed(ixml_spans@) == all.take(i as int),
            decreases self.ixml_spans@.len() - i,
        {
            let ghost before = placed(ixml_spans@);
            let p = (self.ixml_spans[i].0, self.ixml_spans[i].1.clone());
            assert((p.0, p.1@) == all[i as int]);
            ixml_spans.push(p);
            assert(placed(ixml_spans@) =~= before.push(all[i as int]));
            i = i + 1;
            assert(placed(ixml_spans@) =~= all.take(i as int));
        }
        assert(all.take(i as int) =~= all);
        Held { sample_rate: self.sample_rate, bext, ixml, ixml_spans }
    }
}

fn copy_pairs(s: &Vec<(String, String)>) -> (r: Vec<(String, String)>)
    ensures
        text_pairs(r@) == text_pairs(s@),
{
    let mut out: Vec<(String, String)> = Vec::new();
    let mut i: usize = 0;
    while i < s.len()
        invariant
            i <= s@.len(),
            text_pairs(out@) == text_pairs(s@).take(i as int),
        decreases s@.len() - i,
    {
        let ghost before = text_pairs(out@);
        let p = (s[i].0.clone(), s[i].1.clone());
        assert((p.0@, p.1@) == text_pairs(s@)[i as int]);
        out.push(p);
        assert(text_pairs(out@) =~= before.push(text_pairs(s@)[i as int]));
        i = i + 1;
        assert(text_pairs(out@) =~= text_pairs(s@).take(i as int));
    }
    assert(text_pairs(s@).take(i as int) =~= text_pairs(s@));
    out
}

impl Clone for Edits {
    fn clone(&self) -> (r: Self)
        ensures
            r@ == self@,
    {
        let r = Edits {
            bext: [
                self.bext[0].clone(),
                self.bext[1].clone(),
                self.bext[2].clone(),
                self.bext[3].clone(),
                self.bext[4].clone(),
            ],
            start: self.start.clone(),
            coding_history: self.coding_history.clone(),
            info: copy_named(&self.info),
            ixml: copy_pairs(&self.ixml),
            markers: copy_markers(&self.markers),
            held: self.held.clone(),
        };
        assert(r@.bext =~~= self@.bext);
        r
    }
}

/// The highest id of these marks, or 0.
pub open spec fn highest_id(s: Seq<MarkerView>) -> u32
    decreases s.len(),
{
    if s.len() == 0 {
        0
    } else if s.last().id > highest_id(s.drop_last()) {
        s.last().id
    } else {
        highest_id(s.drop_last())
    }
}

/// No mark has the id that the next one gets.
pub proof fn the_next_id_is_unused(s: Seq<MarkerView>, i: int)
    requires
        0 <= i < s.len(),
    ensures
        s[i].id < highest_id(s) + 1,
    decreases s.len(),
{
    if i < s.len() - 1 {
        the_next_id_is_unused(s.drop_last(), i);
    }
}

/// `raw` with `b` in place of what stands at `at`.
pub open spec fn overwritten(raw: Seq<u8>, at: int, b: Seq<u8>) -> Seq<u8> {
    raw.take(at) + b + raw.skip(at + b.len())
}

/// The Broadcast WAV chunk that changes are written into: the file's own, or
/// a new one of the first version.
pub open spec fn bext_base(held: Option<Seq<u8>>) -> Seq<u8> {
    match held {
        Some(b) => if b.len() < BEXT_SIZE {
            b + zeros((BEXT_SIZE - b.len()) as nat)
        } else {
            b
        },
        None => zeros(BEXT_SIZE as nat).update(VERSION as int, 1),
    }
}

/// What is said of a text too long for its field.
pub open spec fn too_long(label: Seq<char>, room: nat, needed: nat) -> Seq<char> {
    label + " holds "@ + digits_of(room) + " bytes and has "@ + digits_of(needed)
        + ": letters outside plain English take two or more"@
}

/// The chunk with the first `k` text fields written where they changed.
pub open spec fn fields_written(
    new: Seq<Seq<char>>,
    old: Seq<Seq<char>>,
    k: int,
    raw: Seq<u8>,
) -> Result<Seq<u8>, Seq<char>>
    decreases k,
{
    if k <= 0 {
        Ok(raw)
    } else {
        match fields_written(new, old, k - 1, raw) {
            Err(e) => Err(e),
            Ok(done) => {
                let (label, start, end) = BEXT_FIELDS@[k - 1];
                let text = encode_utf8(crlf_of(new[k - 1]));
                if new[k - 1] == old[k - 1] {
                    Ok(done)
                } else if text.len() > end - start {
                    Err(too_long(label@, (end - start) as nat, text.len()))
                } else {
                    Ok(
                        overwritten(
                            done,
                            start as int,
                            text + zeros((end - start - text.len()) as nat),
                        ),
                    )
                }
            },
        }
    }
}

/// What is said of a start that is no time of day.
pub open spec fn not_a_time(text: Seq<char>) -> Seq<char> {
    "Start "@ + text + " is not a time of day like 13:45:10.250"@
}

/// The hours, minutes and text of the seconds of a time of day, where its
/// hours and minutes are ones.
pub open spec fn time_parts_of(text: Seq<char>) -> Option<(u64, u64, Seq<char>)> {
    let parts = split_of(trim_of(text), seq![':']);
    match (parsed(parts[0], 10, u64::MAX as nat), parsed(parts[1], 10, u64::MAX as nat)) {
        (Some(h), Some(m)) => if parts.len() == 3 && h < 24 && m < 60 {
            Some((h as u64, m as u64, parts[2]))
        } else {
            None
        },
        _ => None,
    }
}

/// The count of samples since midnight that a start stands for. `samples` is
/// the count for its parts, where its seconds are a number below 60.
pub open spec fn start_of(text: Seq<char>, samples: Option<u64>) -> Result<u64, Seq<char>> {
    if trim_of(text).len() == 0 {
        Ok(0)
    } else {
        match (time_parts_of(text), samples) {
            (Some(_), Some(n)) => Ok(n),
            _ => Err(not_a_time(trim_of(text))),
        }
    }
}

/// The Broadcast WAV chunk with what changed written into it.
pub open spec fn bext_chunk_of(
    e: EditsView,
    saved: EditsView,
    samples: Option<u64>,
) -> Result<Seq<u8>, Seq<char>> {
    match fields_written(e.bext, saved.bext, 5, bext_base(e.held.bext)) {
        Err(e) => Err(e),
        Ok(fields) => {
            let timed = if e.start == saved.start {
                Ok(fields)
            } else {
                match start_of(e.start, samples) {
                    Ok(n) => Ok(overwritten(fields, TIME_REFERENCE as int, le8(n))),
                    Err(e) => Err(e),
                }
            };
            match timed {
                Err(e) => Err(e),
                Ok(raw) => if e.coding_history == saved.coding_history {
                    Ok(raw)
                } else {
                    Ok(raw.take(BEXT_SIZE as int) + encode_utf8(crlf_of(e.coding_history)))
                },
            }
        },
    }
}

/// What stands in the document for a field's new value.
pub open spec fn field_text(span: Span, name: Seq<char>, value: Seq<char>) -> Seq<char> {
    match span {
        Span::Content { .. } => escape_of(value),
        Span::Empty { .. } => seq!['<'] + name + seq!['>'] + escape_of(value) + seq!['<', '/']
            + name + seq!['>'],
    }
}

/// The document with the new values of the first `k` fields in their places,
/// where they changed, and everything else as it was.
pub open spec fn spliced(
    text: Seq<char>,
    spans: Seq<(Span, Seq<char>)>,
    new: Seq<(Seq<char>, Seq<char>)>,
    old: Seq<(Seq<char>, Seq<char>)>,
    k: int,
) -> Seq<char>
    decreases k,
{
    if k <= 0 {
        text
    } else if new[k - 1].1 == old[k - 1].1 {
        spliced(text, spans, new, old, k - 1)
    } else {
        let (span, name) = spans[k - 1];
        spliced(text.take(span.from() as int), spans, new, old, k - 1) + field_text(
            span,
            name,
            new[k - 1].1,
        ) + text.skip(span.to() as int)
    }
}

/// How many fields all three lists have.
pub open spec fn fields_held(e: EditsView, saved: EditsView) -> int {
    let n = if e.ixml.len() < saved.ixml.len() {
        e.ixml.len()
    } else {
        saved.ixml.len()
    };
    if e.held.ixml_spans.len() < n {
        e.held.ixml_spans.len() as int
    } else {
        n as int
    }
}

/// The entries whose trimmed values are not empty, trimmed.
pub open spec fn kept_info(info: Seq<(Seq<u8>, Seq<char>)>) -> Seq<(Seq<u8>, Seq<char>)>
    decreases info.len(),
{
    if info.len() == 0 {
        info
    } else {
        let value = trim_of(info.last().1);
        if value.len() == 0 {
            kept_info(info.drop_last())
        } else {
            kept_info(info.drop_last()).push((info.last().0, value))
        }
    }
}

/// A mark with its texts trimmed.
pub open spec fn trimmed(m: MarkerView) -> MarkerView {
    MarkerView { label: trim_of(m.label), note: trim_of(m.note), ..m }
}

/// What saving has to write to turn `saved`, the file as it is, into `e`.
pub open spec fn changes_of(
    e: EditsView,
    saved: EditsView,
    samples: Option<u64>,
) -> Result<ChangesView, Seq<char>> {
    let bext = if e.bext == saved.bext && e.start == saved.start && e.coding_history
        == saved.coding_history {
        Ok(None)
    } else {
        match bext_chunk_of(e, saved, samples) {
            Ok(b) => Ok(Some(b)),
            Err(e) => Err(e),
        }
    };
    match bext {
        Err(e) => Err(e),
        Ok(bext) => Ok(
            ChangesView {
                bext,
                info: if e.info == saved.info {
                    None
                } else {
                    Some(kept_info(e.info))
                },
                ixml: if e.ixml == saved.ixml {
                    None
                } else {
                    Some(
                        spliced(
                            document_text(e.held.ixml),
                            e.held.ixml_spans,
                            e.ixml,
                            saved.ixml,
                            fields_held(e, saved),
                        ),
                    )
                },
                markers: if e.markers == saved.markers {
                    None
                } else {
                    Some(sort_marks(e.markers.map_values(|m: MarkerView| trimmed(m))))
                },
            },
        ),
    }
}

fn filled(n: usize) -> (r: Vec<u8>)
    ensures
        r@ == zeros(n as nat),
{
    let mut out: Vec<u8> = Vec::new();
    let mut i: usize = 0;
    while i < n
        invariant
            i <= n,
            out@ == zeros(i as nat),
        decreases n - i,
    {
        out.push(0);
        i = i + 1;
        assert(out@ =~= zeros(i as nat));
    }
    out
}

fn overwrite(raw: Vec<u8>, at: usize, b: &[u8]) -> (r: Vec<u8>)
    requires
        at + b@.len() <= raw@.len(),
    ensures
        r@ == overwritten(raw@, at as int, b@),
        r@.len() == raw@.len(),
{
    let len: usize = raw.len();
    let n: usize = b.len();
    let mut out = cut(raw.as_slice(), 0, at);
    put(&mut out, b);
    let rest = cut(raw.as_slice(), at + n, len);
    put(&mut out, rest.as_slice());
    assert(out@ =~= overwritten(raw@, at as int, b@));
    out
}

fn text_too_long(label: &str, room: usize, needed: usize) -> (r: String)
    ensures
        r@ == too_long(label@, room as nat, needed as nat),
{
    let mut out = label.to_owned();
    let a = string(decimal(room as u64).as_slice());
    let b = string(decimal(needed as u64).as_slice());
    out.append(" holds ");
    out.append(a.as_str());
    out.append(" bytes and has ");
    out.append(b.as_str());
    out.append(": letters outside plain English take two or more");
    out
}

fn same_pairs(a: &Vec<(String, String)>, b: &Vec<(String, String)>) -> (r: bool)
    ensures
        r == (text_pairs(a@) == text_pairs(b@)),
{
    let ghost x = text_pairs(a@);
    let ghost y = text_pairs(b@);
    if a.len() != b.len() {
        assert(x.len() != y.len());
        return false;
    }
    let mut i: usize = 0;
    while i < a.len()
        invariant
            i <= a@.len() == b@.len(),
            x == text_pairs(a@),
            y == text_pairs(b@),
            forall|j: int| 0 <= j < i ==> x[j] == y[j],
        decreases a@.len() - i,
    {
        assert(x[i as int] == (a@[i as int].0@, a@[i as int].1@));
        assert(y[i as int] == (b@[i as int].0@, b@[i as int].1@));
        if !same(a[i].0.as_str(), b[i].0.as_str()) || !same(a[i].1.as_str(), b[i].1.as_str()) {
            return false;
        }
        i = i + 1;
    }
    assert(x =~= y);
    true
}

fn same_texts(a: &[String; 5], b: &[String; 5]) -> (r: bool)
    ensures
        r == (texts(a@) == texts(b@)),
{
    let ghost x = texts(a@);
    let ghost y = texts(b@);
    let mut i: usize = 0;
    while i < 5
        invariant
            i <= 5,
            a@.len() == 5,
            b@.len() == 5,
            x == texts(a@),
            y == texts(b@),
            forall|j: int| 0 <= j < i ==> x[j] == y[j],
        decreases 5 - i,
    {
        assert(x[i as int] == a@[i as int]@);
        assert(y[i as int] == b@[i as int]@);
        if !same(a[i].as_str(), b[i].as_str()) {
            return false;
        }
        i = i + 1;
    }
    assert(x =~= y);
    true
}

pub proof fn lemma_fields(k: int)
    requires
        0 <= k < 5,
    ensures
        BEXT_FIELDS@[k].1 <= BEXT_FIELDS@[k].2 <= TIME_REFERENCE,
{
    assert(BEXT_FIELDS@[0].1 == 0 && BEXT_FIELDS@[0].2 == 256);
    assert(BEXT_FIELDS@[1].1 == 256 && BEXT_FIELDS@[1].2 == 288);
    assert(BEXT_FIELDS@[2].1 == 288 && BEXT_FIELDS@[2].2 == 320);
    assert(BEXT_FIELDS@[3].1 == 320 && BEXT_FIELDS@[3].2 == 330);
    assert(BEXT_FIELDS@[4].1 == 330 && BEXT_FIELDS@[4].2 == 338);
}

proof fn lemma_fields_fail(new: Seq<Seq<char>>, old: Seq<Seq<char>>, k: int, n: int, raw: Seq<u8>)
    requires
        k <= n,
        fields_written(new, old, k, raw) is Err,
    ensures
        fields_written(new, old, n, raw) == fields_written(new, old, k, raw),
    decreases n - k,
{
    if k < n {
        lemma_fields_fail(new, old, k, n - 1, raw);
    }
}

fn write_fields(new: &[String; 5], old: &[String; 5], base: Vec<u8>) -> (r: Result<Vec<u8>, String>)
    requires
        base@.len() >= BEXT_SIZE,
    ensures
        match (r, fields_written(texts(new@), texts(old@), 5, base@)) {
            (Ok(b), Ok(chunk)) => b@ == chunk && b@.len() == base@.len(),
            (Err(t), Err(e)) => t@ == e,
            _ => false,
        },
{
    let ghost x = texts(new@);
    let ghost y = texts(old@);
    let ghost first = base@;
    let fields = BEXT_FIELDS;
    let mut raw = base;
    let mut k: usize = 0;
    while k < 5
        invariant
            k <= 5,
            fields == BEXT_FIELDS,
            new@.len() == 5,
            old@.len() == 5,
            x == texts(new@),
            y == texts(old@),
            first == base@,
            raw@.len() == first.len() >= BEXT_SIZE,
            fields_written(x, y, k as int, first) == Ok::<Seq<u8>, Seq<char>>(raw@),
        decreases 5 - k,
    {
        let (label, start, end) = fields[k];
        proof {
            assert(x[k as int] == new@[k as int]@);
            assert(y[k as int] == old@[k as int]@);
            assert(BEXT_FIELDS@[k as int] == (label, start, end));
            lemma_fields(k as int);
        }
        if !same(new[k].as_str(), old[k].as_str()) {
            let text = crlf(new[k].as_str());
            let b = text.as_str().as_bytes();
            let n: usize = b.len();
            if n > end - start {
                proof {
                    lemma_fields_fail(x, y, k + 1, 5, first);
                }
                return Err(text_too_long(label, end - start, n));
            }
            let mut field = cut(b, 0, n);
            let rest = filled(end - start - n);
            put(&mut field, rest.as_slice());
            assert(field@ =~= encode_utf8(crlf_of(x[k as int])) + zeros((end - start - n) as nat));
            raw = overwrite(raw, start, field.as_slice());
        }
        k = k + 1;
    }
    Ok(raw)
}

/// The hours, minutes and text of the seconds of a time of day, where its
/// hours and minutes are ones.
fn time_parts(text: &str) -> (r: Option<(u64, u64, String)>)
    ensures
        match (r, time_parts_of(text@)) {
            (Some((h, m, s)), Some((hours, minutes, seconds))) => h == hours && m == minutes && s@
                == seconds,
            (None, None) => true,
            _ => false,
        },
{
    let v = chars(text);
    let t = trim_chars(v.as_slice());
    let seps: [char; 1] = [':'];
    assert(seps@ =~= seq![':']);
    let parts = split_chars(t.as_slice(), seps.as_slice());
    assert(runs(parts@).len() == parts@.len());
    if parts.len() != 3 {
        return None;
    }
    assert(runs(parts@)[0] == parts@[0]@ && runs(parts@)[1] == parts@[1]@ && runs(parts@)[2]
        == parts@[2]@);
    match (
        parse_number(parts[0].as_slice(), 10, 0xFFFF_FFFF_FFFF_FFFF),
        parse_number(parts[1].as_slice(), 10, 0xFFFF_FFFF_FFFF_FFFF),
    ) {
        (Some(h), Some(m)) => {
            if h < 24 && m < 60 {
                Some((h, m, string(parts[2].as_slice())))
            } else {
                None
            }
        },
        _ => None,
    }
}

fn start_samples(text: &str, samples: Option<u64>) -> (r: Result<u64, String>)
    ensures
        match (r, start_of(text@, samples)) {
            (Ok(n), Ok(count)) => n == count,
            (Err(t), Err(e)) => t@ == e,
            _ => false,
        },
{
    let t = trim(text);
    if t.as_str().is_empty() {
        return Ok(0);
    }
    match (time_parts(text), samples) {
        (Some(_), Some(n)) => Ok(n),
        _ => {
            let mut out = "Start ".to_owned();
            out.append(t.as_str());
            out.append(" is not a time of day like 13:45:10.250");
            Err(out)
        },
    }
}

fn field_chars(span: Span, name: &str, value: &str) -> (r: Vec<char>)
    ensures
        r@ == field_text(span, name@, value@),
{
    let v = chars(value);
    let escaped = escape(v.as_slice());
    match span {
        Span::Content { .. } => escaped,
        Span::Empty { .. } => {
            let n = chars(name);
            let mut out: Vec<char> = Vec::new();
            out.push('<');
            extend(&mut out, n.as_slice());
            out.push('>');
            extend(&mut out, escaped.as_slice());
            out.push('<');
            out.push('/');
            extend(&mut out, n.as_slice());
            out.push('>');
            assert(out@ =~= field_text(span, name@, value@));
            out
        },
    }
}

fn trimmed_markers(s: &Vec<Marker>) -> (r: Vec<Marker>)
    ensures
        marks(r@) == marks(s@).map_values(|m: MarkerView| trimmed(m)),
{
    let ghost all = marks(s@).map_values(|m: MarkerView| trimmed(m));
    let mut out: Vec<Marker> = Vec::new();
    let mut i: usize = 0;
    while i < s.len()
        invariant
            i <= s@.len(),
            all == marks(s@).map_values(|m: MarkerView| trimmed(m)),
            marks(out@) == all.take(i as int),
        decreases s@.len() - i,
    {
        let ghost before = marks(out@);
        let m = Marker {
            id: s[i].id,
            frame: s[i].frame,
            length: s[i].length,
            label: trim(s[i].label.as_str()),
            note: trim(s[i].note.as_str()),
        };
        assert(marks(s@)[i as int] == s@[i as int]@);
        assert(m@ =~= all[i as int]);
        out.push(m);
        assert(marks(out@) =~= before.push(all[i as int]));
        i = i + 1;
        assert(marks(out@) =~= all.take(i as int));
    }
    assert(all.take(i as int) =~= all);
    out
}

fn trimmed_info(s: &Vec<([u8; 4], String)>) -> (r: Vec<([u8; 4], String)>)
    ensures
        named(r@) == kept_info(named(s@)),
{
    let ghost all = named(s@);
    let mut out: Vec<([u8; 4], String)> = Vec::new();
    let mut i: usize = 0;
    proof {
        assert(all.take(0) =~= Seq::<(Seq<u8>, Seq<char>)>::empty());
        assert(named(out@) =~= kept_info(all.take(0)));
    }
    while i < s.len()
        invariant
            i <= s@.len(),
            all == named(s@),
            named(out@) == kept_info(all.take(i as int)),
        decreases s@.len() - i,
    {
        proof {
            assert(all.take(i + 1).drop_last() =~= all.take(i as int));
            assert(all.take(i + 1).last() == (s@[i as int].0@, s@[i as int].1@));
        }
        let ghost before = named(out@);
        let value = trim(s[i].1.as_str());
        if !value.as_str().is_empty() {
            let e = (s[i].0, value);
            let ghost v = (e.0@, e.1@);
            out.push(e);
            assert(named(out@) =~= before.push(v));
        }
        i = i + 1;
    }
    assert(all.take(i as int) =~= all);
    out
}

impl Edits {
    /// The id that a new mark gets.
    pub fn next_marker_id(&self) -> (r: u32)
        requires
            highest_id(self@.markers) < u32::MAX,
        ensures
            r == highest_id(self@.markers) + 1,
    {
        let ghost all = self@.markers;
        let mut id: u32 = 0;
        let mut i: usize = 0;
        assert(all.take(0) =~= Seq::<MarkerView>::empty());
        while i < self.markers.len()
            invariant
                i <= self.markers@.len(),
                all == marks(self.markers@),
                id == highest_id(all.take(i as int)),
            decreases self.markers@.len() - i,
        {
            assert(all.take(i + 1).drop_last() =~= all.take(i as int));
            assert(all.take(i + 1).last() == self.markers@[i as int]@);
            if self.markers[i].id > id {
                id = self.markers[i].id;
            }
            i = i + 1;
        }
        assert(all.take(i as int) =~= all);
        id + 1
    }

    /// The hours, minutes and text of the seconds of the start, where its
    /// hours and minutes are ones.
    pub fn start_parts(&self) -> (r: Option<(u64, u64, String)>)
        ensures
            match (r, time_parts_of(self@.start)) {
                (Some((h, m, s)), Some((hours, minutes, seconds))) => h == hours && m == minutes
                    && s@ == seconds,
                (None, None) => true,
                _ => false,
            },
    {
        time_parts(self.start.as_str())
    }

    fn bext_chunk(&self, saved: &Edits, samples: Option<u64>) -> (r: Result<Vec<u8>, String>)
        ensures
            match (r, bext_chunk_of(self@, saved@, samples)) {
                (Ok(b), Ok(chunk)) => b@ == chunk,
                (Err(t), Err(e)) => t@ == e,
                _ => false,
            },
    {
        let mut raw = match &self.held.bext {
            Some(b) => {
                let mut raw = copy_bytes(b);
                let len: usize = raw.len();
                if len < BEXT_SIZE {
                    let more = filled(BEXT_SIZE - len);
                    put(&mut raw, more.as_slice());
                }
                raw
            },
            None => {
                let mut raw = filled(BEXT_SIZE);
                raw.set(VERSION, 1);
                raw
            },
        };
        assert(raw@ =~= bext_base(self@.held.bext));
        raw = write_fields(&self.bext, &saved.bext, raw)?;
        if !same(self.start.as_str(), saved.start.as_str()) {
            let n: u64 = start_samples(self.start.as_str(), samples)?;
            let mut b: Vec<u8> = Vec::new();
            put_u64(&mut b, n);
            assert(b@ =~= le8(n));
            raw = overwrite(raw, TIME_REFERENCE, b.as_slice());
        }
        if !same(self.coding_history.as_str(), saved.coding_history.as_str()) {
            let text = crlf(self.coding_history.as_str());
            let mut out = cut(raw.as_slice(), 0, BEXT_SIZE);
            put(&mut out, text.as_str().as_bytes());
            assert(out@ =~= raw@.take(BEXT_SIZE as int) + encode_utf8(
                crlf_of(self@.coding_history),
            ));
            raw = out;
        }
        Ok(raw)
    }

    /// The document with the changed fields in their places.
    fn ixml_text(&self, saved: &Edits) -> (r: String)
        ensures
            r@ == spliced(
                document_text(self@.held.ixml),
                self@.held.ixml_spans,
                self@.ixml,
                saved@.ixml,
                fields_held(self@, saved@),
            ),
    {
        proof {
            use_type_invariant(&self.held);
        }
        let text: Vec<char> = match &self.held.ixml {
            Some(x) => chars(x.as_str()),
            None => Vec::new(),
        };
        let ghost spans = self@.held.ixml_spans;
        let ghost new = self@.ixml;
        let ghost old = saved@.ixml;
        let ghost whole = document_text(self@.held.ixml);
        assert(text@ =~= whole);
        let mut n: usize = self.ixml.len();
        if saved.ixml.len() < n {
            n = saved.ixml.len();
        }
        if self.held.ixml_spans.len() < n {
            n = self.held.ixml_spans.len();
        }
        assert(n == fields_held(self@, saved@));
        // From the end back, so the spans still to do stay where they were.
        let mut k: usize = n;
        let mut end: usize = text.len();
        let mut tail: Vec<char> = Vec::new();
        proof {
            assert(whole.take(end as int) =~= whole);
            assert(spliced(whole, spans, new, old, k as int) + tail@ =~= spliced(
                whole,
                spans,
                new,
                old,
                k as int,
            ));
        }
        while k > 0
            invariant
                k <= n,
                n <= spans.len(),
                n <= new.len(),
                n <= old.len(),
                spans == placed(self.held.ixml_spans@),
                new == text_pairs(self.ixml@),
                old == text_pairs(saved.ixml@),
                text@ == whole,
                end <= text@.len(),
                in_places(spans, whole.len() as int),
                k > 0 ==> spans[k - 1].0.to() <= end,
                spliced(whole.take(end as int), spans, new, old, k as int) + tail@ == spliced(
                    whole,
                    spans,
                    new,
                    old,
                    n as int,
                ),
            decreases k,
        {
            k = k - 1;
            proof {
                assert(spans[k as int] == (
                    self.held.ixml_spans@[k as int].0,
                    self.held.ixml_spans@[k as int].1@,
                ));
                assert(new[k as int] == (self.ixml@[k as int].0@, self.ixml@[k as int].1@));
                assert(old[k as int] == (saved.ixml@[k as int].0@, saved.ixml@[k as int].1@));
                if k > 0 {
                    assert(spans[k - 1].0.to() <= spans[k as int].0.from());
                }
            }
            if !same(self.ixml[k].1.as_str(), saved.ixml[k].1.as_str()) {
                let span = self.held.ixml_spans[k].0;
                let (from, to) = span.ends();
                let ghost before = tail@;
                let mut out = field_chars(
                    span,
                    self.held.ixml_spans[k].1.as_str(),
                    self.ixml[k].1.as_str(),
                );
                let kept = part(text.as_slice(), to, end);
                extend(&mut out, kept.as_slice());
                extend(&mut out, tail.as_slice());
                proof {
                    let head = whole.take(end as int);
                    assert(head.take(from as int) =~= whole.take(from as int));
                    assert(head.skip(to as int) =~= whole.subrange(to as int, end as int));
                    let done = spliced(whole.take(from as int), spans, new, old, k as int);
                    assert(done + out@ =~= spliced(head, spans, new, old, k + 1) + before);
                }
                tail = out;
                end = from;
            }
        }
        let mut out = part(text.as_slice(), 0, end);
        extend(&mut out, tail.as_slice());
        assert(out@ =~= whole.take(end as int) + tail@);
        string(out.as_slice())
    }

    /// What saving has to write to turn `saved`, the file as it is, into
    /// this. `samples` is the count of samples since midnight that the
    /// start's parts stand for, where its seconds are a number below 60.
    pub fn changes(&self, saved: &Edits, samples: Option<u64>) -> (r: Result<Changes, String>)
        ensures
            match (r, changes_of(self@, saved@, samples)) {
                (Ok(c), Ok(changes)) => c@ == changes,
                (Err(t), Err(e)) => t@ == e,
                _ => false,
            },
    {
        let bext = if same_texts(&self.bext, &saved.bext) && same(
            self.start.as_str(),
            saved.start.as_str(),
        ) && same(self.coding_history.as_str(), saved.coding_history.as_str()) {
            None
        } else {
            Some(self.bext_chunk(saved, samples)?)
        };
        let info = if same_named(&self.info, &saved.info) {
            None
        } else {
            Some(trimmed_info(&self.info))
        };
        let ixml = if same_pairs(&self.ixml, &saved.ixml) {
            None
        } else {
            Some(self.ixml_text(saved))
        };
        let markers = if same_markers(&self.markers, &saved.markers) {
            None
        } else {
            Some(sort_markers(trimmed_markers(&self.markers)))
        };
        Ok(Changes { bext, ixml, info, markers })
    }
}

/// Where nothing was changed, saving has nothing to write.
pub proof fn nothing_changed_writes_nothing(e: EditsView, samples: Option<u64>)
    ensures
        changes_of(e, e, samples) == Ok::<ChangesView, Seq<char>>(no_changes()),
{
}

/// Each byte of the Broadcast WAV chunk that belongs to no changed field is
/// written as it was.
pub proof fn unchanged_bext_bytes_stay(
    e: EditsView,
    saved: EditsView,
    samples: Option<u64>,
    i: int,
)
    requires
        bext_chunk_of(e, saved, samples) is Ok,
        0 <= i < bext_base(e.held.bext).len(),
        forall|k: int|
            0 <= k < 5 && e.bext[k] != saved.bext[k] ==> !(#[trigger] BEXT_FIELDS@[k].1 <= i
                < BEXT_FIELDS@[k].2),
        e.start == saved.start || !(TIME_REFERENCE <= i < VERSION),
        e.coding_history == saved.coding_history || i < BEXT_SIZE,
    ensures
        i < bext_chunk_of(e, saved, samples)->Ok_0.len(),
        bext_chunk_of(e, saved, samples)->Ok_0[i] == bext_base(e.held.bext)[i],
{
    lemma_fields_stay(e.bext, saved.bext, 5, bext_base(e.held.bext), i);
}

proof fn lemma_fields_stay(
    new: Seq<Seq<char>>,
    old: Seq<Seq<char>>,
    n: int,
    raw: Seq<u8>,
    i: int,
)
    requires
        0 <= n <= 5,
        raw.len() >= BEXT_SIZE,
        0 <= i < raw.len(),
        fields_written(new, old, n, raw) is Ok,
        forall|k: int|
            0 <= k < n && new[k] != old[k] ==> !(#[trigger] BEXT_FIELDS@[k].1 <= i
                < BEXT_FIELDS@[k].2),
    ensures
        fields_written(new, old, n, raw)->Ok_0.len() == raw.len(),
        fields_written(new, old, n, raw)->Ok_0[i] == raw[i],
    decreases n,
{
    if n > 0 {
        lemma_fields_stay(new, old, n - 1, raw, i);
        lemma_fields(n - 1);
        assert(BEXT_FIELDS@[n - 1].1 <= BEXT_FIELDS@[n - 1].2);
    }
}

proof fn lemma_unchanged(
    text: Seq<char>,
    spans: Seq<(Span, Seq<char>)>,
    new: Seq<(Seq<char>, Seq<char>)>,
    old: Seq<(Seq<char>, Seq<char>)>,
    n: int,
)
    requires
        forall|j: int| 0 <= j < n ==> (#[trigger] new[j]).1 == old[j].1,
    ensures
        spliced(text, spans, new, old, n) == text,
    decreases n,
{
    if n > 0 {
        lemma_unchanged(text, spans, new, old, n - 1);
        assert(new[n - 1].1 == old[n - 1].1);
    }
}

/// Where one field of the document changed, only what stands for that field
/// is written anew.
pub proof fn an_edited_field_changes_only_its_own_text(
    text: Seq<char>,
    spans: Seq<(Span, Seq<char>)>,
    new: Seq<(Seq<char>, Seq<char>)>,
    old: Seq<(Seq<char>, Seq<char>)>,
    n: int,
    k: int,
)
    requires
        0 <= k < n,
        new[k].1 != old[k].1,
        forall|j: int| 0 <= j < n && j != k ==> (#[trigger] new[j]).1 == old[j].1,
    ensures
        spliced(text, spans, new, old, n) == text.take(spans[k].0.from() as int) + field_text(
            spans[k].0,
            spans[k].1,
            new[k].1,
        ) + text.skip(spans[k].0.to() as int),
    decreases n,
{
    if n - 1 == k {
        lemma_unchanged(text.take(spans[k].0.from() as int), spans, new, old, n - 1);
    } else {
        assert(new[n - 1].1 == old[n - 1].1);
        an_edited_field_changes_only_its_own_text(text, spans, new, old, n - 1, k);
    }
}

proof fn lemma_kept_add(a: Seq<(Seq<u8>, Seq<char>)>, b: Seq<(Seq<u8>, Seq<char>)>)
    ensures
        kept_info(a + b) == kept_info(a) + kept_info(b),
    decreases b.len(),
{
    if b.len() == 0 {
        assert(a + b =~= a);
    } else {
        assert((a + b).drop_last() =~= a + b.drop_last());
        lemma_kept_add(a, b.drop_last());
        assert(kept_info(a + b) =~= kept_info(a) + kept_info(b));
    }
}

/// An entry that is kept was there and is not blank.
proof fn lemma_kept_was_there(info: Seq<(Seq<u8>, Seq<char>)>, j: int) -> (i: int)
    requires
        0 <= j < kept_info(info).len(),
    ensures
        0 <= i < info.len(),
        kept_info(info)[j] == (info[i].0, trim_of(info[i].1)),
        trim_of(info[i].1).len() > 0,
    decreases info.len(),
{
    let rest = info.drop_last();
    if j < kept_info(rest).len() {
        lemma_kept_was_there(rest, j)
    } else {
        info.len() - 1
    }
}

proof fn lemma_known_ids()
    ensures
        INFO_FIELDS@.len() == 8,
        forall|i: int, j: int|
            0 <= i < j < 8 ==> #[trigger] known_id(i) != #[trigger] known_id(j),
{
    assert forall|i: int, j: int| 0 <= i < j < 8 implies #[trigger] known_id(i)
        != #[trigger] known_id(j) by {
        let a = known_id(i);
        let b = known_id(j);
        assert(a[0] != b[0] || a[1] != b[1] || a[2] != b[2] || a[3] != b[3]);
    }
}

/// Whether entries are shown as a list of fields: each field editors know in
/// its place, then any other entries, none of which would show in the place
/// of a field that was left blank.
pub open spec fn is_shown(info: Seq<(Seq<u8>, Seq<char>)>) -> bool {
    let n = INFO_FIELDS@.len() as int;
    &&& n <= info.len()
    &&& forall|i: int| 0 <= i < n ==> (#[trigger] info[i]).0 == known_id(i)
    &&& forall|i: int, j: int|
        0 <= i < n <= j < info.len() && trim_of((#[trigger] info[i]).1).len() == 0 && trim_of(
            (#[trigger] info[j]).1,
        ).len() > 0 ==> info[j].0 != info[i].0
}

proof fn lemma_known_of_kept(info: Seq<(Seq<u8>, Seq<char>)>, k: int)
    requires
        is_shown(info),
        0 <= k <= INFO_FIELDS@.len(),
    ensures
        known_info(kept_info(info), k) == (
            Seq::new(k as nat, |i: int| (info[i].0, trim_of(info[i].1))),
            kept_info(info.skip(k)),
        ),
    decreases k,
{
    lemma_known_ids();
    let done = Seq::new(k as nat, |i: int| (info[i].0, trim_of(info[i].1)));
    if k == 0 {
        assert(info.skip(0) =~= info);
        assert(done =~= Seq::empty());
    } else {
        lemma_known_of_kept(info, k - 1);
        let id = known_id(k - 1);
        let left = kept_info(info.skip(k - 1));
        let one = seq![info[k - 1]];
        assert(info.skip(k - 1) =~= one + info.skip(k));
        lemma_kept_add(one, info.skip(k));
        let none = Seq::<(Seq<u8>, Seq<char>)>::empty();
        assert(one.drop_last() =~= none);
        assert(kept_info(none) =~= none);
        lemma_first_index(left, has_id(id), 0);
        let at = first_index(left, has_id(id), 0);
        let value = trim_of(info[k - 1].1);
        if value.len() > 0 {
            assert(kept_info(one) =~= seq![(id, value)]);
            assert(left[0] == (id, value));
            assert(has_id(id)(left[0]));
            assert(at == 0);
            assert(left.remove(0) =~= kept_info(info.skip(k)));
        } else {
            assert(value =~= Seq::<char>::empty());
            assert(kept_info(one) =~= none);
            assert(left =~= kept_info(info.skip(k)));
            if at < left.len() {
                let i = lemma_kept_was_there(info.skip(k), at);
                assert(info.skip(k)[i] == info[k + i]);
                assert(info[k + i].0 == id);
                assert(info[k - 1].0 == id);
                assert(false);
            }
        }
        assert(known_info(kept_info(info), k).0 =~= done);
    }
}

/// The list of fields shows, once it was saved, each field as it was set, and
/// behind them what other entries were kept.
pub proof fn saved_info_shows_as_set(info: Seq<(Seq<u8>, Seq<char>)>)
    requires
        is_shown(info),
    ensures
        shown_info(kept_info(info)) == Seq::new(
            INFO_FIELDS@.len(),
            |i: int| (info[i].0, trim_of(info[i].1)),
        ) + kept_info(info.skip(INFO_FIELDS@.len() as int)),
{
    lemma_known_of_kept(info, INFO_FIELDS@.len() as int);
}

} // verus!
