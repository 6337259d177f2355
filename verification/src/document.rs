//! An ordered key-value document for one boot-loader entry.
//!
//! A document is a sequence of lines. A structured line holds a key and a
//! value, rendered as `key value\n` (or `key\n` when the value is empty).
//! Lines that carry no key-value structure (blank lines, comments starting
//! with `#`, lines opening with whitespace) are kept verbatim so that a
//! parsed file is reproduced byte for byte on write-back.

use vstd::prelude::*;

verus! {

/// Line feed.
pub const NL: u8 = 10;
/// Space.
pub const SP: u8 = 32;
/// Horizontal tab.
pub const TAB: u8 = 9;
/// Number sign, opening a comment line.
pub const HASH: u8 = 35;

/// One line of a boot-configuration document.
pub enum ConfigLine {
    /// A structured `key value` line.
    Pair { key: Vec<u8>, value: Vec<u8> },
    /// A line kept verbatim: blank, comment, or otherwise unrecognized.
    Raw { text: Vec<u8> },
}

/// The mathematical model of one line.
pub enum LineModel {
    Pair { key: Seq<u8>, value: Seq<u8> },
    Raw { text: Seq<u8> },
}

impl View for ConfigLine {
    type V = LineModel;

    open spec fn view(&self) -> LineModel {
        match self {
            ConfigLine::Pair { key, value } => LineModel::Pair { key: key@, value: value@ },
            ConfigLine::Raw { text } => LineModel::Raw { text: text@ },
        }
    }
}

/// An ordered key-value document representing one boot-loader entry.
pub struct BootConfigDocument {
    lines: Vec<ConfigLine>,
}

impl View for BootConfigDocument {
    type V = Seq<LineModel>;

    closed spec fn view(&self) -> Seq<LineModel> {
        self.lines@.map_values(|l: ConfigLine| l@)
    }
}

/// Whether `b` is a horizontal whitespace byte (space or tab).
pub open spec fn is_ws(b: u8) -> bool {
    b == SP || b == TAB
}

/// A key is non-empty, free of whitespace and newlines, and does not open a comment.
pub open spec fn key_wf(k: Seq<u8>) -> bool {
    &&& k.len() > 0
    &&& k[0] != HASH
    &&& forall|i: int| 0 <= i < k.len() ==> !is_ws(#[trigger] k[i]) && k[i] != NL
}

/// A value is free of newlines and does not begin with whitespace
/// (the separating whitespace run would otherwise swallow it on re-parse).
pub open spec fn value_wf(v: Seq<u8>) -> bool {
    &&& forall|i: int| 0 <= i < v.len() ==> #[trigger] v[i] != NL
    &&& v.len() > 0 ==> !is_ws(v[0])
}

/// A verbatim line is free of newlines and is re-classified as verbatim when
/// parsed again: it is blank, a comment, or opens with whitespace.
pub open spec fn raw_wf(t: Seq<u8>) -> bool {
    &&& forall|i: int| 0 <= i < t.len() ==> #[trigger] t[i] != NL
    &&& t.len() == 0 || t[0] == HASH || is_ws(t[0])
}

/// Well-formedness of one line.
pub open spec fn line_wf(l: LineModel) -> bool {
    match l {
        LineModel::Pair { key, value } => key_wf(key) && value_wf(value),
        LineModel::Raw { text } => raw_wf(text),
    }
}

/// Well-formedness of a whole document: every line is well-formed.
pub open spec fn doc_wf(d: Seq<LineModel>) -> bool {
    forall|i: int| 0 <= i < d.len() ==> line_wf(#[trigger] d[i])
}

/// The bytes of one line without its terminating newline.
pub open spec fn line_body(l: LineModel) -> Seq<u8> {
    match l {
        LineModel::Pair { key, value } => if value.len() == 0 {
            key
        } else {
            key + seq![SP] + value
        },
        LineModel::Raw { text } => text,
    }
}

/// The bytes of one line, newline-terminated.
pub open spec fn render_line(l: LineModel) -> Seq<u8> {
    line_body(l) + seq![NL]
}

/// The serialized bytes of a document: its lines in order.
pub open spec fn render(d: Seq<LineModel>) -> Seq<u8>
    decreases d.len(),
{
    if d.len() == 0 {
        Seq::empty()
    } else {
        render_line(d[0]) + render(d.drop_first())
    }
}

/// Index of the first newline in `s`, or `s.len()` when there is none.
pub open spec fn first_nl(s: Seq<u8>) -> int
    decreases s.len(),
{
    if s.len() == 0 {
        0
    } else if s[0] == NL {
        0
    } else {
        1 + first_nl(s.drop_first())
    }
}

/// Index of the first whitespace byte in `s`, or `s.len()` when there is none.
pub open spec fn first_ws(s: Seq<u8>) -> int
    decreases s.len(),
{
    if s.len() == 0 {
        0
    } else if is_ws(s[0]) {
        0
    } else {
        1 + first_ws(s.drop_first())
    }
}

/// Index of the first non-whitespace byte in `s`, or `s.len()` when all are whitespace.
pub open spec fn first_nonws(s: Seq<u8>) -> int
    decreases s.len(),
{
    if s.len() == 0 {
        0
    } else if is_ws(s[0]) {
        1 + first_nonws(s.drop_first())
    } else {
        0
    }
}

/// How one newline-free line parses. A blank line, a comment, or a line
/// opening with whitespace is kept verbatim; otherwise the line splits on the
/// first whitespace run into a key and the rest as value, the value being
/// empty when there is no whitespace at all.
pub open spec fn parse_line(s: Seq<u8>) -> LineModel {
    if s.len() == 0 || s[0] == HASH || is_ws(s[0]) {
        LineModel::Raw { text: s }
    } else {
        let i = first_ws(s);
        if i == s.len() {
            LineModel::Pair { key: s, value: Seq::empty() }
        } else {
            LineModel::Pair { key: s.take(i), value: s.skip(i + first_nonws(s.skip(i))) }
        }
    }
}

/// How a whole byte stream parses: split on newlines, parse each line.
/// A trailing newline on the final line is accepted but not required.
pub open spec fn parse_lines(s: Seq<u8>) -> Seq<LineModel>
    decreases s.len(),
{
    if s.len() == 0 {
        Seq::empty()
    } else {
        let i = first_nl(s);
        if 0 <= i < s.len() {
            seq![parse_line(s.take(i))] + parse_lines(s.skip(i + 1))
        } else {
            seq![parse_line(s)]
        }
    }
}

/// `first_nl` is within bounds and points at the first newline.
pub proof fn lemma_first_nl_char(s: Seq<u8>)
    ensures
        0 <= first_nl(s) <= s.len(),
        forall|k: int| 0 <= k < first_nl(s) ==> #[trigger] s[k] != NL,
        first_nl(s) < s.len() ==> s[first_nl(s)] == NL,
    decreases s.len(),
{
    if s.len() > 0 && s[0] != NL {
        lemma_first_nl_char(s.drop_first());
        assert forall|k: int| 0 <= k < first_nl(s) implies #[trigger] s[k] != NL by {
            if k > 0 {
                assert(s[k] == s.drop_first()[k - 1]);
            }
        }
        if first_nl(s) < s.len() {
            assert(s[first_nl(s)] == s.drop_first()[first_nl(s) - 1]);
        }
    }
}

/// Any index satisfying the first-newline characterization is `first_nl`.
pub proof fn lemma_first_nl_unique(s: Seq<u8>, i: int)
    requires
        0 <= i <= s.len(),
        forall|k: int| 0 <= k < i ==> #[trigger] s[k] != NL,
        i < s.len() ==> s[i] == NL,
    ensures
        first_nl(s) == i,
    decreases s.len(),
{
    if i == 0 {
    } else {
        assert(s[0] != NL);
        lemma_first_nl_unique(s.drop_first(), i - 1);
    }
}

/// `first_ws` is within bounds and points at the first whitespace byte.
pub proof fn lemma_first_ws_char(s: Seq<u8>)
    ensures
        0 <= first_ws(s) <= s.len(),
        forall|k: int| 0 <= k < first_ws(s) ==> !is_ws(#[trigger] s[k]),
        first_ws(s) < s.len() ==> is_ws(s[first_ws(s)]),
    decreases s.len(),
{
    if s.len() > 0 && !is_ws(s[0]) {
        lemma_first_ws_char(s.drop_first());
        assert forall|k: int| 0 <= k < first_ws(s) implies !is_ws(#[trigger] s[k]) by {
            if k > 0 {
                assert(s[k] == s.drop_first()[k - 1]);
            }
        }
        if first_ws(s) < s.len() {
            assert(s[first_ws(s)] == s.drop_first()[first_ws(s) - 1]);
        }
    }
}

/// Any index satisfying the first-whitespace characterization is `first_ws`.
pub proof fn lemma_first_ws_unique(s: Seq<u8>, i: int)
    requires
        0 <= i <= s.len(),
        forall|k: int| 0 <= k < i ==> !is_ws(#[trigger] s[k]),
        i < s.len() ==> is_ws(s[i]),
    ensures
        first_ws(s) == i,
    decreases s.len(),
{
    if i == 0 {
    } else {
        assert(!is_ws(s[0]));
        lemma_first_ws_unique(s.drop_first(), i - 1);
    }
}

/// `first_nonws` is within bounds and points at the first non-whitespace byte.
pub proof fn lemma_first_nonws_char(s: Seq<u8>)
    ensures
        0 <= first_nonws(s) <= s.len(),
        forall|k: int| 0 <= k < first_nonws(s) ==> is_ws(#[trigger] s[k]),
        first_nonws(s) < s.len() ==> !is_ws(s[first_nonws(s)]),
    decreases s.len(),
{
    if s.len() > 0 && is_ws(s[0]) {
        lemma_first_nonws_char(s.drop_first());
        assert forall|k: int| 0 <= k < first_nonws(s) implies is_ws(#[trigger] s[k]) by {
            if k > 0 {
                assert(s[k] == s.drop_first()[k - 1]);
            }
        }
        if first_nonws(s) < s.len() {
            assert(s[first_nonws(s)] == s.drop_first()[first_nonws(s) - 1]);
        }
    }
}

/// Any index satisfying the first-non-whitespace characterization is `first_nonws`.
pub proof fn lemma_first_nonws_unique(s: Seq<u8>, i: int)
    requires
        0 <= i <= s.len(),
        forall|k: int| 0 <= k < i ==> is_ws(#[trigger] s[k]),
        i < s.len() ==> !is_ws(s[i]),
    ensures
        first_nonws(s) == i,
    decreases s.len(),
{
    if i == 0 {
    } else {
        assert(is_ws(s[0]));
        lemma_first_nonws_unique(s.drop_first(), i - 1);
    }
}

/// The body of a well-formed line contains no newline.
pub proof fn lemma_line_body_no_nl(l: LineModel)
    requires
        line_wf(l),
    ensures
        forall|k: int| 0 <= k < line_body(l).len() ==> #[trigger] line_body(l)[k] != NL,
{
    match l {
        LineModel::Pair { key, value } => {
            if value.len() > 0 {
                assert forall|k: int| 0 <= k < line_body(l).len() implies #[trigger] line_body(
                    l,
                )[k] != NL by {
                    if k < key.len() {
                        assert(line_body(l)[k] == key[k]);
                    } else if k == key.len() {
                        assert(line_body(l)[k] == SP);
                    } else {
                        assert(line_body(l)[k] == value[k - key.len() - 1]);
                    }
                }
            }
        },
        LineModel::Raw { .. } => {},
    }
}

/// Parsing the rendered body of a well-formed line gives that line back.
pub proof fn lemma_parse_line_body(l: LineModel)
    requires
        line_wf(l),
    ensures
        parse_line(line_body(l)) == l,
{
    match l {
        LineModel::Raw { text } => {},
        LineModel::Pair { key, value } => {
            let b = line_body(l);
            if value.len() == 0 {
                assert(b == key);
                lemma_first_ws_unique(b, b.len() as int);
                assert(value =~= Seq::<u8>::empty());
            } else {
                assert(b.len() == key.len() + 1 + value.len());
                assert forall|k: int| 0 <= k < key.len() implies !is_ws(#[trigger] b[k]) by {
                    assert(b[k] == key[k]);
                }
                assert(b[key.len() as int] == SP);
                lemma_first_ws_unique(b, key.len() as int);
                let i = key.len() as int;
                let tail = b.skip(i);
                assert(tail[0] == SP);
                assert(tail[1] == value[0]);
                lemma_first_nonws_unique(tail, 1);
                assert(b.take(i) =~= key);
                assert(b.skip(i + 1) =~= value);
            }
        },
    }
}

/// Every line that parsing produces is well-formed.
pub proof fn lemma_parse_line_wf(s: Seq<u8>)
    requires
        forall|k: int| 0 <= k < s.len() ==> #[trigger] s[k] != NL,
    ensures
        line_wf(parse_line(s)),
{
    if s.len() == 0 || s[0] == HASH || is_ws(s[0]) {
    } else {
        lemma_first_ws_char(s);
        let i = first_ws(s);
        if i == s.len() {
        } else {
            assert(i > 0);
            let k = s.take(i);
            assert forall|m: int| 0 <= m < k.len() implies !is_ws(#[trigger] k[m]) && k[m]
                != NL by {
                assert(k[m] == s[m]);
            }
            let tail = s.skip(i);
            lemma_first_nonws_char(tail);
            let j = i + first_nonws(tail);
            let v = s.skip(j);
            assert forall|m: int| 0 <= m < v.len() implies #[trigger] v[m] != NL by {
                assert(v[m] == s[m + j]);
            }
            if v.len() > 0 {
                assert(first_nonws(tail) < tail.len());
                assert(v[0] == tail[first_nonws(tail)]);
            }
        }
    }
}

/// Every document that parsing produces is well-formed.
pub proof fn lemma_parse_wf(s: Seq<u8>)
    ensures
        doc_wf(parse_lines(s)),
    decreases s.len(),
{
    if s.len() == 0 {
    } else {
        lemma_first_nl_char(s);
        let i = first_nl(s);
        if i < s.len() {
            let head = s.take(i);
            assert forall|k: int| 0 <= k < head.len() implies #[trigger] head[k] != NL by {
                assert(head[k] == s[k]);
            }
            lemma_parse_line_wf(head);
            lemma_parse_wf(s.skip(i + 1));
            let d = parse_lines(s);
            assert forall|m: int| 0 <= m < d.len() implies line_wf(#[trigger] d[m]) by {
                if m > 0 {
                    assert(d[m] == parse_lines(s.skip(i + 1))[m - 1]);
                }
            }
        } else {
            lemma_parse_line_wf(s);
        }
    }
}

/// Parsing the serialization of a well-formed document yields the document
/// back: same lines, same order, duplicates and verbatim lines included.
pub proof fn lemma_parse_render(d: Seq<LineModel>)
    requires
        doc_wf(d),
    ensures
        parse_lines(render(d)) == d,
    decreases d.len(),
{
    if d.len() == 0 {
        assert(parse_lines(render(d)) =~= d);
    } else {
        let l = d[0];
        assert(line_wf(l));
        let body = line_body(l);
        let rest = render(d.drop_first());
        let s = render(d);
        assert(s =~= body + seq![NL] + rest);
        lemma_line_body_no_nl(l);
        assert forall|k: int| 0 <= k < body.len() implies #[trigger] s[k] != NL by {
            assert(s[k] == body[k]);
        }
        assert(s[body.len() as int] == NL);
        lemma_first_nl_unique(s, body.len() as int);
        let i = body.len() as int;
        assert(0 <= i < s.len());
        assert(s.take(i) =~= body);
        assert(s.skip(i + 1) =~= rest);
        lemma_parse_line_body(l);
        assert(doc_wf(d.drop_first())) by {
            assert(forall|m: int|
                0 <= m < d.drop_first().len() ==> #[trigger] d.drop_first()[m] == d[m + 1]);
        }
        lemma_parse_render(d.drop_first());
        assert(parse_lines(s) =~= d);
    }
}

/// Whether a line is a key-value pair whose key is `k`.
pub open spec fn line_matches(l: LineModel, k: Seq<u8>) -> bool {
    match l {
        LineModel::Pair { key, .. } => key == k,
        LineModel::Raw { .. } => false,
    }
}

/// The value of a pair line; the empty sequence for a verbatim line.
pub open spec fn line_value(l: LineModel) -> Seq<u8> {
    match l {
        LineModel::Pair { value, .. } => value,
        LineModel::Raw { .. } => Seq::empty(),
    }
}

/// Index of the first pair line with key `k`, or `d.len()` when there is none.
pub open spec fn first_match(d: Seq<LineModel>, k: Seq<u8>) -> int
    decreases d.len(),
{
    if d.len() == 0 {
        0
    } else if line_matches(d[0], k) {
        0
    } else {
        1 + first_match(d.drop_first(), k)
    }
}

/// Whether some pair line of `d` has key `k`.
pub open spec fn has_key(d: Seq<LineModel>, k: Seq<u8>) -> bool {
    first_match(d, k) < d.len()
}

/// First-match lookup: the value of the first pair line with key `k`.
pub open spec fn doc_get(d: Seq<LineModel>, k: Seq<u8>) -> Option<Seq<u8>> {
    if has_key(d, k) {
        Option::Some(line_value(d[first_match(d, k)]))
    } else {
        Option::None
    }
}

/// First-match update: overwrite the value of the first pair line with key
/// `k`, or append a new pair at the end when no line has that key.
pub open spec fn doc_set(d: Seq<LineModel>, k: Seq<u8>, v: Seq<u8>) -> Seq<LineModel> {
    if has_key(d, k) {
        d.update(first_match(d, k), LineModel::Pair { key: k, value: v })
    } else {
        d.push(LineModel::Pair { key: k, value: v })
    }
}

/// `first_match` is within bounds, earlier lines do not match, and the line
/// it points at does.
pub proof fn lemma_first_match_char(d: Seq<LineModel>, k: Seq<u8>)
    ensures
        0 <= first_match(d, k) <= d.len(),
        forall|m: int| 0 <= m < first_match(d, k) ==> !line_matches(#[trigger] d[m], k),
        first_match(d, k) < d.len() ==> line_matches(d[first_match(d, k)], k),
    decreases d.len(),
{
    if d.len() > 0 && !line_matches(d[0], k) {
        lemma_first_match_char(d.drop_first(), k);
        assert forall|m: int| 0 <= m < first_match(d, k) implies !line_matches(
            #[trigger] d[m],
            k,
        ) by {
            if m > 0 {
                assert(d[m] == d.drop_first()[m - 1]);
            }
        }
        if first_match(d, k) < d.len() {
            assert(d[first_match(d, k)] == d.drop_first()[first_match(d, k) - 1]);
        }
    }
}

/// Any index satisfying the first-match characterization is `first_match`.
pub proof fn lemma_first_match_unique(d: Seq<LineModel>, k: Seq<u8>, i: int)
    requires
        0 <= i <= d.len(),
        forall|m: int| 0 <= m < i ==> !line_matches(#[trigger] d[m], k),
        i < d.len() ==> line_matches(d[i], k),
    ensures
        first_match(d, k) == i,
    decreases d.len(),
{
    if i == 0 {
    } else {
        assert(!line_matches(d[0], k));
        lemma_first_match_unique(d.drop_first(), k, i - 1);
    }
}

/// Setting a key that is absent appends exactly one entry at the end and
/// leaves every existing line unchanged.
pub proof fn lemma_set_absent(d: Seq<LineModel>, k: Seq<u8>, v: Seq<u8>)
    requires
        !has_key(d, k),
    ensures
        doc_set(d, k, v).len() == d.len() + 1,
        doc_set(d, k, v)[d.len() as int] == (LineModel::Pair { key: k, value: v }),
        forall|m: int| 0 <= m < d.len() ==> #[trigger] doc_set(d, k, v)[m] == d[m],
{
}

/// Setting a key that is present leaves the entry count unchanged, replaces
/// the value at the first matching position, and leaves every other line
/// unchanged.
pub proof fn lemma_set_present(d: Seq<LineModel>, k: Seq<u8>, v: Seq<u8>)
    requires
        has_key(d, k),
    ensures
        doc_set(d, k, v).len() == d.len(),
        0 <= first_match(d, k) < d.len(),
        doc_set(d, k, v)[first_match(d, k)] == (LineModel::Pair { key: k, value: v }),
        forall|m: int|
            0 <= m < d.len() && m != first_match(d, k) ==> #[trigger] doc_set(d, k, v)[m] == d[m],
        first_match(doc_set(d, k, v), k) == first_match(d, k),
{
    lemma_first_match_char(d, k);
    let i = first_match(d, k);
    let d2 = doc_set(d, k, v);
    assert forall|m: int| 0 <= m < i implies !line_matches(#[trigger] d2[m], k) by {
        assert(d2[m] == d[m]);
    }
    lemma_first_match_unique(d2, k, i);
}

/// Lookup after update: `set` makes `get` return the new value.
pub proof fn lemma_get_after_set(d: Seq<LineModel>, k: Seq<u8>, v: Seq<u8>)
    ensures
        doc_get(doc_set(d, k, v), k) == Option::Some(v),
{
    lemma_first_match_char(d, k);
    let d2 = doc_set(d, k, v);
    if has_key(d, k) {
        lemma_set_present(d, k, v);
    } else {
        assert forall|m: int| 0 <= m < d.len() implies !line_matches(#[trigger] d2[m], k) by {
            assert(d2[m] == d[m]);
        }
        lemma_first_match_unique(d2, k, d.len() as int);
    }
}

/// Updating with a well-formed key and value preserves document well-formedness.
pub proof fn lemma_set_wf(d: Seq<LineModel>, k: Seq<u8>, v: Seq<u8>)
    requires
        doc_wf(d),
        key_wf(k),
        value_wf(v),
    ensures
        doc_wf(doc_set(d, k, v)),
{
    lemma_first_match_char(d, k);
    let d2 = doc_set(d, k, v);
    assert forall|m: int| 0 <= m < d2.len() implies line_wf(#[trigger] d2[m]) by {
        if m < d.len() && m != first_match(d, k) {
            assert(d2[m] == d[m]);
        }
    }
}

/// The model of a list of byte vectors.
pub open spec fn values_model(s: Seq<Vec<u8>>) -> Seq<Seq<u8>> {
    s.map_values(|v: Vec<u8>| v@)
}

/// The distinguished key whose repeated entries carry overlay initrds.
pub open spec fn initrd_key() -> Seq<u8> {
    seq![105u8, 110u8, 105u8, 116u8, 114u8, 100u8]
}

/// Whether a line is an `initrd` pair.
pub open spec fn is_initrd_line(l: LineModel) -> bool {
    line_matches(l, initrd_key())
}

/// The values of the `initrd` pairs after the first one, in order: the first
/// `initrd` entry names the primary initrd, the later ones are overlays.
/// `seen` records whether the primary entry has already been passed.
pub open spec fn overlay_values(d: Seq<LineModel>, seen: bool) -> Seq<Seq<u8>>
    decreases d.len(),
{
    if d.len() == 0 {
        Seq::empty()
    } else if is_initrd_line(d[0]) {
        if seen {
            seq![line_value(d[0])] + overlay_values(d.drop_first(), true)
        } else {
            overlay_values(d.drop_first(), true)
        }
    } else {
        overlay_values(d.drop_first(), seen)
    }
}

/// The overlay-initrd list of a document.
pub open spec fn overlays(d: Seq<LineModel>) -> Seq<Seq<u8>> {
    overlay_values(d, false)
}

/// The document with every `initrd` pair after the first removed.
pub open spec fn strip_extra_initrds(d: Seq<LineModel>, seen: bool) -> Seq<LineModel>
    decreases d.len(),
{
    if d.len() == 0 {
        Seq::empty()
    } else if is_initrd_line(d[0]) {
        if seen {
            strip_extra_initrds(d.drop_first(), true)
        } else {
            seq![d[0]] + strip_extra_initrds(d.drop_first(), true)
        }
    } else {
        seq![d[0]] + strip_extra_initrds(d.drop_first(), seen)
    }
}

/// One `initrd` pair per overlay value.
pub open spec fn overlay_pairs(vs: Seq<Seq<u8>>) -> Seq<LineModel> {
    vs.map_values(|v: Seq<u8>| LineModel::Pair { key: initrd_key(), value: v })
}

/// The document with its overlay-initrd list replaced: the `initrd` pairs
/// after the first are removed and the new overlays appended at the end.
pub open spec fn with_overlays(d: Seq<LineModel>, vs: Seq<Seq<u8>>) -> Seq<LineModel> {
    strip_extra_initrds(d, false) + overlay_pairs(vs)
}

/// The `initrd` key is a well-formed key.
pub proof fn lemma_initrd_key_wf()
    ensures
        key_wf(initrd_key()),
{
    let k = initrd_key();
    assert forall|i: int| 0 <= i < k.len() implies !is_ws(#[trigger] k[i]) && k[i] != NL by {
        if i == 0 {
            assert(k[i] == 105);
        } else if i == 1 {
            assert(k[i] == 110);
        } else if i == 2 {
            assert(k[i] == 105);
        } else if i == 3 {
            assert(k[i] == 116);
        } else if i == 4 {
            assert(k[i] == 114);
        } else {
            assert(k[i] == 100);
        }
    }
    assert(k[0] == 105);
}

/// Stripping extra `initrd` pairs preserves well-formedness.
pub proof fn lemma_strip_wf(d: Seq<LineModel>, seen: bool)
    requires
        doc_wf(d),
    ensures
        doc_wf(strip_extra_initrds(d, seen)),
    decreases d.len(),
{
    if d.len() > 0 {
        assert(doc_wf(d.drop_first())) by {
            assert(forall|m: int|
                0 <= m < d.drop_first().len() ==> #[trigger] d.drop_first()[m] == d[m + 1]);
        }
        let rest_seen = if is_initrd_line(d[0]) {
            true
        } else {
            seen
        };
        lemma_strip_wf(d.drop_first(), rest_seen);
        let r = strip_extra_initrds(d, seen);
        if !(is_initrd_line(d[0]) && seen) {
            assert forall|m: int| 0 <= m < r.len() implies line_wf(#[trigger] r[m]) by {
                if m > 0 {
                    assert(r[m] == strip_extra_initrds(d.drop_first(), rest_seen)[m - 1]);
                }
            }
        }
    }
}

/// Replacing the overlay list with well-formed values preserves document
/// well-formedness.
pub proof fn lemma_with_overlays_wf(d: Seq<LineModel>, vs: Seq<Seq<u8>>)
    requires
        doc_wf(d),
        forall|i: int| 0 <= i < vs.len() ==> value_wf(#[trigger] vs[i]),
    ensures
        doc_wf(with_overlays(d, vs)),
{
    lemma_strip_wf(d, false);
    lemma_initrd_key_wf();
    let stripped = strip_extra_initrds(d, false);
    let r = with_overlays(d, vs);
    assert forall|m: int| 0 <= m < r.len() implies line_wf(#[trigger] r[m]) by {
        if m < stripped.len() {
            assert(r[m] == stripped[m]);
        } else {
            assert(r[m] == overlay_pairs(vs)[m - stripped.len()]);
            assert(overlay_pairs(vs)[m - stripped.len()] == (LineModel::Pair {
                key: initrd_key(),
                value: vs[m - stripped.len()],
            }));
        }
    }
}

/// Whether the document holds any `initrd` pair.
pub open spec fn has_initrd(d: Seq<LineModel>) -> bool {
    exists|i: int| 0 <= i < d.len() && is_initrd_line(#[trigger] d[i])
}

/// Scanning a pure overlay-pair list past the primary entry collects exactly
/// its values.
proof fn lemma_overlay_pairs_collect(vs: Seq<Seq<u8>>)
    ensures
        overlay_values(overlay_pairs(vs), true) == vs,
    decreases vs.len(),
{
    let p = overlay_pairs(vs);
    if vs.len() == 0 {
        assert(overlay_values(p, true) =~= vs);
    } else {
        assert(p[0] == (LineModel::Pair { key: initrd_key(), value: vs[0] }));
        assert(is_initrd_line(p[0]));
        assert(p.drop_first() =~= overlay_pairs(vs.drop_first()));
        lemma_overlay_pairs_collect(vs.drop_first());
        assert(overlay_values(p, true) =~= vs);
    }
}

/// Scanning a stripped document followed by a suffix is scanning the suffix,
/// with the primary `initrd` entry counted as passed when the document held
/// one.
proof fn lemma_strip_then_scan(d: Seq<LineModel>, q: Seq<LineModel>, seen: bool)
    ensures
        overlay_values(strip_extra_initrds(d, seen) + q, seen) == overlay_values(
            q,
            seen || has_initrd(d),
        ),
    decreases d.len(),
{
    if d.len() == 0 {
        assert(strip_extra_initrds(d, seen) + q =~= q);
        assert(!has_initrd(d));
    } else {
        let rest = d.drop_first();
        assert(forall|m: int| 0 <= m < rest.len() ==> #[trigger] rest[m] == d[m + 1]);
        if is_initrd_line(d[0]) {
            assert(has_initrd(d));
            if seen {
                lemma_strip_then_scan(rest, q, true);
                assert(strip_extra_initrds(d, seen) + q =~= strip_extra_initrds(rest, true) + q);
            } else {
                lemma_strip_then_scan(rest, q, true);
                let whole = strip_extra_initrds(d, seen) + q;
                assert(whole[0] == d[0]);
                assert(whole.drop_first() =~= strip_extra_initrds(rest, true) + q);
            }
        } else {
            lemma_strip_then_scan(rest, q, seen);
            let whole = strip_extra_initrds(d, seen) + q;
            assert(whole[0] == d[0]);
            assert(whole.drop_first() =~= strip_extra_initrds(rest, seen) + q);
            assert(has_initrd(d) == has_initrd(rest)) by {
                if has_initrd(rest) {
                    let i = choose|i: int|
                        0 <= i < rest.len() && is_initrd_line(#[trigger] rest[i]);
                    assert(is_initrd_line(d[i + 1]));
                }
                if has_initrd(d) {
                    let i = choose|i: int| 0 <= i < d.len() && is_initrd_line(#[trigger] d[i]);
                    assert(i != 0);
                    assert(is_initrd_line(rest[i - 1]));
                }
            }
        }
    }
}

/// Replacing the overlay list and reading it back yields the list that was
/// set, provided the document holds a primary `initrd` entry (without one,
/// the first value set would itself become the primary entry).
pub proof fn lemma_overlay_round_trip(d: Seq<LineModel>, vs: Seq<Seq<u8>>)
    requires
        has_initrd(d) || vs.len() == 0,
    ensures
        overlays(with_overlays(d, vs)) == vs,
{
    lemma_strip_then_scan(d, overlay_pairs(vs), false);
    if has_initrd(d) {
        lemma_overlay_pairs_collect(vs);
    } else {
        assert(overlay_pairs(vs) =~= Seq::<LineModel>::empty());
        assert(overlay_values(overlay_pairs(vs), false) =~= vs);
    }
}

/// Serialization is a pure function of the document: any two serializations
/// of the same line sequence are byte-identical, so writing twice with no
/// intervening mutation produces identical output.
pub proof fn lemma_write_deterministic(d: Seq<LineModel>, out1: Seq<u8>, out2: Seq<u8>)
    requires
        out1 == render(d),
        out2 == render(d),
    ensures
        out1 == out2,
{
}

/// Copies a byte vector.
pub(crate) fn clone_bytes(v: &Vec<u8>) -> (r: Vec<u8>)
    ensures
        r@ == v@,
{
    let mut r: Vec<u8> = Vec::new();
    let mut i: usize = 0;
    while i < v.len()
        invariant
            i <= v.len(),
            r@ == v@.take(i as int),
        decreases v.len() - i,
    {
        r.push(v[i]);
        i = i + 1;
        proof {
            assert(r@ =~= v@.take(i as int));
        }
    }
    proof {
        assert(v@.take(v@.len() as int) =~= v@);
    }
    r
}

/// Compares two byte vectors for equality.
pub(crate) fn bytes_eq(a: &Vec<u8>, b: &Vec<u8>) -> (r: bool)
    ensures
        r == (a@ == b@),
{
    if a.len() != b.len() {
        return false;
    }
    let mut i: usize = 0;
    while i < a.len()
        invariant
            i <= a.len(),
            a@.len() == b@.len(),
            forall|k: int| 0 <= k < i ==> a@[k] == b@[k],
        decreases a.len() - i,
    {
        if a[i] != b[i] {
            return false;
        }
        i = i + 1;
    }
    proof {
        assert(a@ =~= b@);
    }
    true
}

/// Appends the bytes of `b` to `out`.
fn push_bytes(out: &mut Vec<u8>, b: &Vec<u8>)
    ensures
        final(out)@ == old(out)@ + b@,
{
    let mut i: usize = 0;
    while i < b.len()
        invariant
            i <= b.len(),
            out@ == old(out)@ + b@.take(i as int),
        decreases b.len() - i,
    {
        out.push(b[i]);
        i = i + 1;
        proof {
            assert(old(out)@ + b@.take(i - 1) + seq![b@[i - 1]] =~= old(out)@ + b@.take(i as int));
        }
    }
    proof {
        assert(old(out)@ + b@.take(b@.len() as int) =~= old(out)@ + b@);
    }
}

/// Copies `v[from..to]` into a fresh vector.
fn subrange_vec(v: &Vec<u8>, from: usize, to: usize) -> (r: Vec<u8>)
    requires
        from <= to <= v@.len(),
    ensures
        r@ == v@.subrange(from as int, to as int),
{
    let mut r: Vec<u8> = Vec::new();
    let mut i: usize = from;
    while i < to
        invariant
            from <= i <= to <= v@.len(),
            r@ == v@.subrange(from as int, i as int),
        decreases to - i,
    {
        r.push(v[i]);
        i = i + 1;
        proof {
            assert(r@ =~= v@.subrange(from as int, i as int));
        }
    }
    r
}

/// First index `j >= from` with `v[j]` a newline, or `v.len()` when none.
fn find_nl_from(v: &Vec<u8>, from: usize) -> (r: usize)
    requires
        from <= v@.len(),
    ensures
        from <= r <= v@.len(),
        forall|k: int| from <= k < r ==> #[trigger] v@[k] != NL,
        r < v@.len() ==> v@[r as int] == NL,
{
    let mut i: usize = from;
    while i < v.len()
        invariant
            from <= i <= v@.len(),
            forall|k: int| from <= k < i ==> #[trigger] v@[k] != NL,
        decreases v.len() - i,
    {
        if v[i] == NL {
            return i;
        }
        i = i + 1;
    }
    i
}

/// Parses one newline-free line.
fn parse_one_line(line: &Vec<u8>) -> (cl: ConfigLine)
    ensures
        cl@ == parse_line(line@),
{
    if line.len() == 0 || line[0] == HASH || line[0] == SP || line[0] == TAB {
        return ConfigLine::Raw { text: clone_bytes(line) };
    }
    // find the first whitespace byte
    let mut i: usize = 0;
    while i < line.len() && line[i] != SP && line[i] != TAB
        invariant
            i <= line@.len(),
            forall|k: int| 0 <= k < i ==> !is_ws(#[trigger] line@[k]),
        decreases line.len() - i,
    {
        i = i + 1;
    }
    proof {
        lemma_first_ws_unique(line@, i as int);
    }
    if i == line.len() {
        ConfigLine::Pair { key: clone_bytes(line), value: Vec::new() }
    } else {
        // skip the whitespace run separating key and value
        let mut j: usize = i;
        while j < line.len() && (line[j] == SP || line[j] == TAB)
            invariant
                i <= j <= line@.len(),
                forall|k: int| i <= k < j ==> is_ws(#[trigger] line@[k]),
            decreases line.len() - j,
        {
            j = j + 1;
        }
        proof {
            let tail = line@.skip(i as int);
            assert forall|k: int| 0 <= k < j - i implies is_ws(#[trigger] tail[k]) by {
                assert(tail[k] == line@[k + i]);
            }
            if j < line@.len() {
                assert(tail[j - i] == line@[j as int]);
            }
            lemma_first_nonws_unique(tail, j - i);
            assert(line@.subrange(0, i as int) =~= line@.take(i as int));
            assert(line@.subrange(j as int, line@.len() as int) =~= line@.skip(j as int));
        }
        ConfigLine::Pair {
            key: subrange_vec(line, 0, i),
            value: subrange_vec(line, j, line.len()),
        }
    }
}

impl BootConfigDocument {
    /// Creates an empty document. It serializes to an empty byte stream.
    pub fn new() -> (d: Self)
        ensures
            d@ == Seq::<LineModel>::empty(),
    {
        let d = BootConfigDocument { lines: Vec::new() };
        proof {
            assert(d@ =~= Seq::<LineModel>::empty());
        }
        d
    }

    /// Number of lines held, verbatim lines included.
    pub fn len(&self) -> (n: usize)
        ensures
            n == self@.len(),
    {
        self.lines.len()
    }

    /// Whether every line of this document is well-formed.
    pub open spec fn wf(&self) -> bool {
        doc_wf(self@)
    }

    /// Parses a byte stream into a document. Parsing never fails: structure
    /// is recovered best-effort and unrecognized lines are kept verbatim, so
    /// a zero-length input yields an empty document.
    pub fn parse_bytes(src: &Vec<u8>) -> (d: Self)
        ensures
            d@ == parse_lines(src@),
            d.wf(),
    {
        let mut lines: Vec<ConfigLine> = Vec::new();
        let mut pos: usize = 0;
        proof {
            assert(src@.skip(0) =~= src@);
        }
        while pos < src.len()
            invariant
                pos <= src@.len(),
                lines@.map_values(|l: ConfigLine| l@) + parse_lines(src@.skip(pos as int))
                    =~= parse_lines(src@),
            decreases src.len() - pos,
        {
            let ghost prev = lines@.map_values(|l: ConfigLine| l@);
            let ghost rest = src@.skip(pos as int);
            let nl = find_nl_from(src, pos);
            proof {
                assert forall|k: int| 0 <= k < nl - pos implies #[trigger] rest[k] != NL by {
                    assert(rest[k] == src@[k + pos]);
                }
                if nl < src@.len() {
                    assert(rest[nl - pos] == src@[nl as int]);
                }
                lemma_first_nl_unique(rest, nl - pos);
            }
            let line = subrange_vec(src, pos, nl);
            proof {
                assert(line@ =~= rest.take(nl - pos));
            }
            let cl = parse_one_line(&line);
            lines.push(cl);
            let next = if nl < src.len() {
                nl + 1
            } else {
                nl
            };
            proof {
                if nl < src@.len() {
                    assert(src@.skip(next as int) =~= rest.skip(nl - pos + 1));
                    assert(parse_lines(rest) == seq![parse_line(rest.take(nl - pos))]
                        + parse_lines(rest.skip(nl - pos + 1)));
                } else {
                    assert(rest.take(nl - pos) =~= rest);
                    assert(src@.skip(next as int) =~= Seq::<u8>::empty());
                    if rest.len() > 0 {
                        assert(parse_lines(rest) == seq![parse_line(rest)]);
                    } else {
                        assert(line@ =~= Seq::<u8>::empty());
                        assert(parse_lines(rest) =~= Seq::<LineModel>::empty());
                    }
                }
                assert(lines@.map_values(|l: ConfigLine| l@) =~= prev + seq![cl@]);
            }
            pos = next;
            proof {
                if pos == src@.len() && src@.len() > 0 && src@[src@.len() - 1] != NL {
                    assert(lines@.map_values(|l: ConfigLine| l@) + parse_lines(
                        src@.skip(pos as int),
                    ) =~= parse_lines(src@));
                }
            }
        }
        proof {
            assert(src@.skip(src@.len() as int) =~= Seq::<u8>::empty());
        }
        let d = BootConfigDocument { lines };
        proof {
            lemma_parse_wf(src@);
        }
        d
    }

    /// Serializes the document: each line in order, `key value\n` for pairs
    /// (`key\n` when the value is empty), verbatim lines byte for byte.
    pub fn write_bytes(&self) -> (out: Vec<u8>)
        ensures
            out@ == render(self@),
    {
        let mut out: Vec<u8> = Vec::new();
        let mut i: usize = 0;
        proof {
            assert(self@.skip(0) =~= self@);
        }
        while i < self.lines.len()
            invariant
                i <= self.lines@.len(),
                self@.len() == self.lines@.len(),
                forall|m: int| 0 <= m < self@.len() ==> #[trigger] self@[m] == self.lines@[m]@,
                out@ + render(self@.skip(i as int)) =~= render(self@),
            decreases self.lines.len() - i,
        {
            let ghost prev = out@;
            let ghost rest = self@.skip(i as int);
            match &self.lines[i] {
                ConfigLine::Pair { key, value } => {
                    push_bytes(&mut out, key);
                    if value.len() > 0 {
                        out.push(SP);
                        push_bytes(&mut out, value);
                    }
                    out.push(NL);
                },
                ConfigLine::Raw { text } => {
                    push_bytes(&mut out, text);
                    out.push(NL);
                },
            }
            proof {
                assert(rest[0] == self@[i as int]);
                assert(out@ =~= prev + render_line(rest[0]));
                assert(rest.drop_first() =~= self@.skip(i + 1));
                assert(render(rest) == render_line(rest[0]) + render(rest.drop_first()));
                assert(out@ + render(self@.skip(i + 1)) =~= prev + render(rest));
            }
            i = i + 1;
        }
        proof {
            assert(self@.skip(self@.len() as int) =~= Seq::<LineModel>::empty());
            assert(out@ + render(self@.skip(self@.len() as int)) =~= out@);
        }
        out
    }

    /// First-match lookup: the value of the first pair line whose key equals
    /// `key`, or nothing when no line has that key.
    pub fn get(&self, key: &Vec<u8>) -> (r: Option<Vec<u8>>)
        ensures
            (match r {
                Option::Some(v) => doc_get(self@, key@) == Option::Some(v@),
                Option::None => doc_get(self@, key@) == Option::<Seq<u8>>::None,
            }),
    {
        let mut i: usize = 0;
        while i < self.lines.len()
            invariant
                i <= self.lines@.len(),
                self@.len() == self.lines@.len(),
                forall|m: int| 0 <= m < self@.len() ==> #[trigger] self@[m] == self.lines@[m]@,
                forall|m: int| 0 <= m < i ==> !line_matches(#[trigger] self@[m], key@),
            decreases self.lines.len() - i,
        {
            match &self.lines[i] {
                ConfigLine::Pair { key: k, value } => {
                    if bytes_eq(k, key) {
                        proof {
                            lemma_first_match_unique(self@, key@, i as int);
                        }
                        return Option::Some(clone_bytes(value));
                    }
                },
                ConfigLine::Raw { .. } => {},
            }
            i = i + 1;
        }
        proof {
            lemma_first_match_unique(self@, key@, self@.len() as int);
        }
        Option::None
    }

    /// First-match update: overwrites the value of the first pair line whose
    /// key equals `key`, or appends a new `key value` pair at the end.
    pub fn set(&mut self, key: &Vec<u8>, value: &Vec<u8>)
        requires
            old(self).wf(),
            key_wf(key@),
            value_wf(value@),
        ensures
            final(self)@ == doc_set(old(self)@, key@, value@),
            final(self).wf(),
    {
        let mut i: usize = 0;
        let n = self.lines.len();
        let mut found: bool = false;
        let mut at: usize = 0;
        while i < n && !found
            invariant
                i <= n,
                n == self.lines@.len(),
                self@.len() == self.lines@.len(),
                forall|m: int| 0 <= m < self@.len() ==> #[trigger] self@[m] == self.lines@[m]@,
                !found ==> forall|m: int| 0 <= m < i ==> !line_matches(#[trigger] self@[m], key@),
                found ==> at < i && line_matches(self@[at as int], key@) && forall|m: int|
                    0 <= m < at ==> !line_matches(#[trigger] self@[m], key@),
            decreases n - i,
        {
            match &self.lines[i] {
                ConfigLine::Pair { key: k, .. } => {
                    if bytes_eq(k, key) {
                        found = true;
                        at = i;
                    }
                },
                ConfigLine::Raw { .. } => {},
            }
            i = i + 1;
        }
        let pair = ConfigLine::Pair { key: clone_bytes(key), value: clone_bytes(value) };
        if found {
            proof {
                lemma_first_match_unique(self@, key@, at as int);
            }
            self.lines.set(at, pair);
            proof {
                assert(self@ =~= doc_set(old(self)@, key@, value@));
            }
        } else {
            proof {
                lemma_first_match_unique(self@, key@, self@.len() as int);
            }
            self.lines.push(pair);
            proof {
                assert(self@ =~= doc_set(old(self)@, key@, value@));
            }
        }
        proof {
            lemma_set_wf(old(self)@, key@, value@);
        }
    }
}

/// Copies one line.
fn clone_line(l: &ConfigLine) -> (r: ConfigLine)
    ensures
        r@ == l@,
{
    match l {
        ConfigLine::Pair { key, value } => ConfigLine::Pair {
            key: clone_bytes(key),
            value: clone_bytes(value),
        },
        ConfigLine::Raw { text } => ConfigLine::Raw { text: clone_bytes(text) },
    }
}

/// The `initrd` key as bytes.
pub fn initrd_key_bytes() -> (r: Vec<u8>)
    ensures
        r@ == initrd_key(),
{
    let mut r: Vec<u8> = Vec::new();
    r.push(105);
    r.push(110);
    r.push(105);
    r.push(116);
    r.push(114);
    r.push(100);
    proof {
        assert(r@ =~= initrd_key());
    }
    r
}

impl Clone for BootConfigDocument {
    /// Deep value copy: the clone holds the same lines and shares no state
    /// with the original.
    fn clone(&self) -> (d: Self)
        ensures
            d@ == self@,
    {
        let mut lines: Vec<ConfigLine> = Vec::new();
        let mut i: usize = 0;
        while i < self.lines.len()
            invariant
                i <= self.lines@.len(),
                lines@.len() == i,
                forall|m: int| 0 <= m < i ==> #[trigger] lines@[m]@ == self.lines@[m]@,
            decreases self.lines.len() - i,
        {
            let cl = match &self.lines[i] {
                ConfigLine::Pair { key, value } => ConfigLine::Pair {
                    key: clone_bytes(key),
                    value: clone_bytes(value),
                },
                ConfigLine::Raw { text } => ConfigLine::Raw { text: clone_bytes(text) },
            };
            lines.push(cl);
            i = i + 1;
        }
        let d = BootConfigDocument { lines };
        proof {
            assert(d@ =~= self@);
        }
        d
    }
}

impl Default for BootConfigDocument {
    /// The default document is empty.
    fn default() -> (d: Self)
        ensures
            d@ == Seq::<LineModel>::empty(),
    {
        BootConfigDocument::new()
    }
}

impl BootConfigDocument {
    /// The overlay-initrd list: the values of the `initrd` pairs after the
    /// first one, in document order.
    pub fn overlay_initrds(&self) -> (r: Vec<Vec<u8>>)
        ensures
            values_model(r@) == overlays(self@),
    {
        let key = initrd_key_bytes();
        let mut r: Vec<Vec<u8>> = Vec::new();
        let mut seen: bool = false;
        let mut i: usize = 0;
        proof {
            assert(self@.skip(0) =~= self@);
        }
        while i < self.lines.len()
            invariant
                i <= self.lines@.len(),
                key@ == initrd_key(),
                self@.len() == self.lines@.len(),
                forall|m: int| 0 <= m < self@.len() ==> #[trigger] self@[m] == self.lines@[m]@,
                values_model(r@) + overlay_values(self@.skip(i as int), seen) =~= overlays(self@),
            decreases self.lines.len() - i,
        {
            let ghost rest = self@.skip(i as int);
            proof {
                assert(rest[0] == self@[i as int]);
                assert(rest.drop_first() =~= self@.skip(i + 1));
            }
            match &self.lines[i] {
                ConfigLine::Pair { key: k, value } => {
                    if bytes_eq(k, &key) {
                        if seen {
                            let ghost prev = values_model(r@);
                            r.push(clone_bytes(value));
                            proof {
                                assert(values_model(r@) =~= prev + seq![line_value(rest[0])]);
                            }
                        }
                        seen = true;
                    }
                },
                ConfigLine::Raw { .. } => {},
            }
            i = i + 1;
        }
        proof {
            assert(self@.skip(self@.len() as int) =~= Seq::<LineModel>::empty());
            assert(values_model(r@) + overlay_values(
                self@.skip(self@.len() as int),
                seen,
            ) =~= values_model(r@));
        }
        r
    }

    /// Replaces the overlay-initrd list: removes every `initrd` pair after
    /// the first and appends one `initrd` pair per given value at the end.
    pub fn set_overlay_initrds(&mut self, initrds: &Vec<Vec<u8>>)
        requires
            old(self).wf(),
            forall|i: int| 0 <= i < initrds@.len() ==> value_wf(#[trigger] initrds@[i]@),
        ensures
            final(self)@ == with_overlays(old(self)@, values_model(initrds@)),
            final(self).wf(),
    {
        let key = initrd_key_bytes();
        let mut kept: Vec<ConfigLine> = Vec::new();
        let mut seen: bool = false;
        let mut i: usize = 0;
        proof {
            assert(self@.skip(0) =~= self@);
        }
        while i < self.lines.len()
            invariant
                i <= self.lines@.len(),
                key@ == initrd_key(),
                self@.len() == self.lines@.len(),
                forall|m: int| 0 <= m < self@.len() ==> #[trigger] self@[m] == self.lines@[m]@,
                kept@.map_values(|l: ConfigLine| l@) + strip_extra_initrds(
                    self@.skip(i as int),
                    seen,
                ) =~= strip_extra_initrds(self@, false),
            decreases self.lines.len() - i,
        {
            let ghost rest = self@.skip(i as int);
            let ghost prev = kept@.map_values(|l: ConfigLine| l@);
            proof {
                assert(rest[0] == self@[i as int]);
                assert(rest.drop_first() =~= self@.skip(i + 1));
            }
            let is_initrd = match &self.lines[i] {
                ConfigLine::Pair { key: k, .. } => bytes_eq(k, &key),
                ConfigLine::Raw { .. } => false,
            };
            if is_initrd {
                if !seen {
                    kept.push(clone_line(&self.lines[i]));
                    proof {
                        assert(kept@.map_values(|l: ConfigLine| l@) =~= prev + seq![rest[0]]);
                    }
                }
                seen = true;
            } else {
                kept.push(clone_line(&self.lines[i]));
                proof {
                    assert(kept@.map_values(|l: ConfigLine| l@) =~= prev + seq![rest[0]]);
                }
            }
            i = i + 1;
        }
        proof {
            assert(self@.skip(self@.len() as int) =~= Seq::<LineModel>::empty());
            assert(kept@.map_values(|l: ConfigLine| l@) =~= strip_extra_initrds(self@, false));
        }
        let mut j: usize = 0;
        let ghost stripped = strip_extra_initrds(self@, false);
        while j < initrds.len()
            invariant
                j <= initrds@.len(),
                key@ == initrd_key(),
                kept@.map_values(|l: ConfigLine| l@) =~= stripped + overlay_pairs(
                    values_model(initrds@.take(j as int)),
                ),
            decreases initrds.len() - j,
        {
            let ghost prev = kept@.map_values(|l: ConfigLine| l@);
            kept.push(ConfigLine::Pair {
                key: clone_bytes(&key),
                value: clone_bytes(&initrds[j]),
            });
            j = j + 1;
            proof {
                assert(kept@.map_values(|l: ConfigLine| l@) =~= prev + seq![
                    LineModel::Pair { key: initrd_key(), value: initrds@[j - 1]@ },
                ]);
                assert(overlay_pairs(values_model(initrds@.take(j as int))) =~= overlay_pairs(
                    values_model(initrds@.take(j - 1)),
                ) + seq![LineModel::Pair { key: initrd_key(), value: initrds@[j - 1]@ }]);
            }
        }
        proof {
            assert(initrds@.take(initrds@.len() as int) =~= initrds@);
        }
        self.lines = kept;
        proof {
            assert(self@ =~= with_overlays(old(self)@, values_model(initrds@)));
            lemma_with_overlays_wf(old(self)@, values_model(initrds@));
        }
    }
}

} // verus!
