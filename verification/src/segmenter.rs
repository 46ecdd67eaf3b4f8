//! Decoding of a model response into typed segments, incrementally over a
//! chunked stream, and the inverse encoding of segments back into the marker
//! syntax that the wire convention uses.
//!
//! An artifact travels as `<ClaippyArtifact identifier="ID">BODY</ClaippyArtifact>`,
//! optionally with a ` language="LANG"` attribute; the decoder finds each
//! attribute wherever it stands in the opening marker.  Everything outside
//! such a marker pair is narrative text.
use vstd::prelude::*;

use crate::markers::{
    find_from, find_str, is_match_at, lemma_find_from_is_first, lemma_find_from_some,
    lemma_no_straddle, match_at,
};

verus! {

// ---------------------------------------------------------------------------
// Segment data model
// ---------------------------------------------------------------------------

/// One decoded segment of a model response: narrative markdown, or a named
/// artifact with an optional language tag.
#[derive(Debug, PartialEq, Eq)]
pub enum MessageParts {
    Markdown(String),
    Artifact { identifier: String, language: Option<String>, content: String },
}

impl Clone for MessageParts {
    fn clone(&self) -> (r: MessageParts)
        ensures
            r == *self,
    {
        match self {
            MessageParts::Markdown(t) => MessageParts::Markdown(t.clone()),
            MessageParts::Artifact { identifier, language, content } => MessageParts::Artifact {
                identifier: identifier.clone(),
                language: match language {
                    Some(l) => Some(l.clone()),
                    None => None,
                },
                content: content.clone(),
            },
        }
    }
}

/// The mathematical shape of a segment: its strings as character sequences.
pub enum PartView {
    Markdown(Seq<char>),
    Artifact { identifier: Seq<char>, language: Option<Seq<char>>, content: Seq<char> },
}

impl View for MessageParts {
    type V = PartView;

    open spec fn view(&self) -> PartView {
        match self {
            MessageParts::Markdown(t) => PartView::Markdown(t@),
            MessageParts::Artifact { identifier, language, content } => PartView::Artifact {
                identifier: identifier@,
                language: match language {
                    Some(l) => Some(l@),
                    None => None,
                },
                content: content@,
            },
        }
    }
}

/// The views of a vector of segments.
pub open spec fn part_views(v: Seq<MessageParts>) -> Seq<PartView> {
    v.map_values(|p: MessageParts| p@)
}

// ---------------------------------------------------------------------------
// The marker vocabulary
// ---------------------------------------------------------------------------

pub open spec fn open_marker() -> Seq<char> {
    "<ClaippyArtifact"@
}

pub open spec fn close_marker() -> Seq<char> {
    "</ClaippyArtifact>"@
}

pub open spec fn gt_text() -> Seq<char> {
    ">"@
}

pub open spec fn quote_text() -> Seq<char> {
    "\""@
}

pub open spec fn id_attr_prefix() -> Seq<char> {
    " identifier=\""@
}

pub open spec fn lang_attr_prefix() -> Seq<char> {
    " language=\""@
}

/// Identifier substituted when a marker's attributes are malformed.
pub open spec fn unknown_id() -> Seq<char> {
    "unknown"@
}

/// `'<'` occurs in `p` exactly at its first position.
pub open spec fn lt_only_first(p: Seq<char>) -> bool {
    &&& p.len() > 0
    &&& p[0] == '<'
    &&& forall|i: int| 1 <= i < p.len() ==> p[i] != '<'
}

/// The character-level facts about the marker vocabulary that the scanning
/// proofs rely on.
pub proof fn lemma_marker_facts()
    ensures
        open_marker().len() == 16,
        close_marker().len() == 18,
        lt_only_first(open_marker()),
        lt_only_first(close_marker()),
        gt_text().len() == 1 && gt_text()[0] == '>',
        quote_text().len() == 1 && quote_text()[0] == '"',
        id_attr_prefix().len() == 13,
        lang_attr_prefix().len() == 11,
        forall|i: int| 0 <= i < 13 ==> id_attr_prefix()[i] != '>',
        forall|i: int| 0 <= i < 11 ==> lang_attr_prefix()[i] != '>',
        id_attr_prefix()[1] == 'i',
        lang_attr_prefix()[1] == 'l',
        unknown_id().len() == 7,
{
    reveal_strlit("<ClaippyArtifact");
    reveal_strlit("</ClaippyArtifact>");
    reveal_strlit(">");
    reveal_strlit("\"");
    reveal_strlit(" identifier=\"");
    reveal_strlit(" language=\"");
    reveal_strlit("unknown");
    assert forall|i: int| 1 <= i < open_marker().len() implies open_marker()[i] != '<' by {
        let s = open_marker();
        if i == 1 {
            assert(s[1] == 'C');
        } else if i == 2 {
            assert(s[2] == 'l');
        } else if i == 3 {
            assert(s[3] == 'a');
        } else if i == 4 {
            assert(s[4] == 'i');
        } else if i == 5 {
            assert(s[5] == 'p');
        } else if i == 6 {
            assert(s[6] == 'p');
        } else if i == 7 {
            assert(s[7] == 'y');
        } else if i == 8 {
            assert(s[8] == 'A');
        } else if i == 9 {
            assert(s[9] == 'r');
        } else if i == 10 {
            assert(s[10] == 't');
        } else if i == 11 {
            assert(s[11] == 'i');
        } else if i == 12 {
            assert(s[12] == 'f');
        } else if i == 13 {
            assert(s[13] == 'a');
        } else if i == 14 {
            assert(s[14] == 'c');
        } else {
            assert(i == 15);
            assert(s[15] == 't');
        }
    }
    assert forall|i: int| 1 <= i < close_marker().len() implies close_marker()[i] != '<' by {
        let s = close_marker();
        if i == 1 {
            assert(s[1] == '/');
        } else if i == 2 {
            assert(s[2] == 'C');
        } else if i == 3 {
            assert(s[3] == 'l');
        } else if i == 4 {
            assert(s[4] == 'a');
        } else if i == 5 {
            assert(s[5] == 'i');
        } else if i == 6 {
            assert(s[6] == 'p');
        } else if i == 7 {
            assert(s[7] == 'p');
        } else if i == 8 {
            assert(s[8] == 'y');
        } else if i == 9 {
            assert(s[9] == 'A');
        } else if i == 10 {
            assert(s[10] == 'r');
        } else if i == 11 {
            assert(s[11] == 't');
        } else if i == 12 {
            assert(s[12] == 'i');
        } else if i == 13 {
            assert(s[13] == 'f');
        } else if i == 14 {
            assert(s[14] == 'a');
        } else if i == 15 {
            assert(s[15] == 'c');
        } else if i == 16 {
            assert(s[16] == 't');
        } else {
            assert(i == 17);
            assert(s[17] == '>');
        }
    }
    assert forall|i: int| 0 <= i < id_attr_prefix().len() implies id_attr_prefix()[i] != '>' by {
        let s = id_attr_prefix();
        if i == 0 {
            assert(s[0] == ' ');
        } else if i == 1 {
            assert(s[1] == 'i');
        } else if i == 2 {
            assert(s[2] == 'd');
        } else if i == 3 {
            assert(s[3] == 'e');
        } else if i == 4 {
            assert(s[4] == 'n');
        } else if i == 5 {
            assert(s[5] == 't');
        } else if i == 6 {
            assert(s[6] == 'i');
        } else if i == 7 {
            assert(s[7] == 'f');
        } else if i == 8 {
            assert(s[8] == 'i');
        } else if i == 9 {
            assert(s[9] == 'e');
        } else if i == 10 {
            assert(s[10] == 'r');
        } else if i == 11 {
            assert(s[11] == '=');
        } else {
            assert(i == 12);
            assert(s[12] == '"');
        }
    }
    assert forall|i: int| 0 <= i < lang_attr_prefix().len() implies lang_attr_prefix()[i] != '>' by {
        let s = lang_attr_prefix();
        if i == 0 {
            assert(s[0] == ' ');
        } else if i == 1 {
            assert(s[1] == 'l');
        } else if i == 2 {
            assert(s[2] == 'a');
        } else if i == 3 {
            assert(s[3] == 'n');
        } else if i == 4 {
            assert(s[4] == 'g');
        } else if i == 5 {
            assert(s[5] == 'u');
        } else if i == 6 {
            assert(s[6] == 'a');
        } else if i == 7 {
            assert(s[7] == 'g');
        } else if i == 8 {
            assert(s[8] == 'e');
        } else if i == 9 {
            assert(s[9] == '=');
        } else {
            assert(i == 10);
            assert(s[10] == '"');
        }
    }
}


/// Character-level facts about the attribute keys and their encoded
/// prefixes, on which the attribute-extraction proofs rest.
proof fn lemma_attr_key_facts()
    ensures
        id_key().len() == 12,
        lang_key().len() == 10,
        lang_stem().len() == 9,
        id_key()[0] == 'i',
        lang_key()[0] == 'l',
        lang_key()[9] == '\"',
        id_attr_prefix()[0] == ' ',
        id_attr_prefix()[12] == '\"',
        lang_attr_prefix()[10] == '\"',
        id_attr_prefix().subrange(1, 13) == id_key(),
        lang_attr_prefix().subrange(1, 11) == lang_key(),
        lang_key().subrange(0, 9) == lang_stem(),
        forall|i: int| 0 <= i < 12 ==> id_attr_prefix()[i] != '\"',
        forall|i: int| 0 <= i < 10 ==> lang_attr_prefix()[i] != '\"',
        forall|i: int| 0 <= i < 13 ==> id_attr_prefix()[i] != 'l',
{
    lemma_marker_facts();
    reveal_strlit(" identifier=\"");
    reveal_strlit(" language=\"");
    reveal_strlit("identifier=\"");
    reveal_strlit("language=\"");
    reveal_strlit("language=");
    assert(id_attr_prefix()[0] == ' ');
    assert(id_attr_prefix()[1] == 'i');
    assert(id_attr_prefix()[2] == 'd');
    assert(id_attr_prefix()[3] == 'e');
    assert(id_attr_prefix()[4] == 'n');
    assert(id_attr_prefix()[5] == 't');
    assert(id_attr_prefix()[6] == 'i');
    assert(id_attr_prefix()[7] == 'f');
    assert(id_attr_prefix()[8] == 'i');
    assert(id_attr_prefix()[9] == 'e');
    assert(id_attr_prefix()[10] == 'r');
    assert(id_attr_prefix()[11] == '=');
    assert(id_attr_prefix()[12] == '\"');
    assert(lang_attr_prefix()[0] == ' ');
    assert(lang_attr_prefix()[1] == 'l');
    assert(lang_attr_prefix()[2] == 'a');
    assert(lang_attr_prefix()[3] == 'n');
    assert(lang_attr_prefix()[4] == 'g');
    assert(lang_attr_prefix()[5] == 'u');
    assert(lang_attr_prefix()[6] == 'a');
    assert(lang_attr_prefix()[7] == 'g');
    assert(lang_attr_prefix()[8] == 'e');
    assert(lang_attr_prefix()[9] == '=');
    assert(lang_attr_prefix()[10] == '\"');
    assert(id_key()[0] == 'i');
    assert(id_key()[1] == 'd');
    assert(id_key()[2] == 'e');
    assert(id_key()[3] == 'n');
    assert(id_key()[4] == 't');
    assert(id_key()[5] == 'i');
    assert(id_key()[6] == 'f');
    assert(id_key()[7] == 'i');
    assert(id_key()[8] == 'e');
    assert(id_key()[9] == 'r');
    assert(id_key()[10] == '=');
    assert(id_key()[11] == '\"');
    assert(lang_key()[0] == 'l');
    assert(lang_key()[1] == 'a');
    assert(lang_key()[2] == 'n');
    assert(lang_key()[3] == 'g');
    assert(lang_key()[4] == 'u');
    assert(lang_key()[5] == 'a');
    assert(lang_key()[6] == 'g');
    assert(lang_key()[7] == 'e');
    assert(lang_key()[8] == '=');
    assert(lang_key()[9] == '\"');
    assert(lang_stem()[0] == 'l');
    assert(lang_stem()[1] == 'a');
    assert(lang_stem()[2] == 'n');
    assert(lang_stem()[3] == 'g');
    assert(lang_stem()[4] == 'u');
    assert(lang_stem()[5] == 'a');
    assert(lang_stem()[6] == 'g');
    assert(lang_stem()[7] == 'e');
    assert(lang_stem()[8] == '=');
    assert forall|i: int| 0 <= i < 12 implies id_attr_prefix().subrange(1, 13)[i] == id_key()[i] by {
        if i == 0 {
        } else if i == 1 {
        } else if i == 2 {
        } else if i == 3 {
        } else if i == 4 {
        } else if i == 5 {
        } else if i == 6 {
        } else if i == 7 {
        } else if i == 8 {
        } else if i == 9 {
        } else if i == 10 {
        } else {
            assert(i == 11);
        }
    }
    assert(id_attr_prefix().subrange(1, 13) =~= id_key());
    assert forall|i: int| 0 <= i < 10 implies lang_attr_prefix().subrange(1, 11)[i]
        == lang_key()[i] by {
        if i == 0 {
        } else if i == 1 {
        } else if i == 2 {
        } else if i == 3 {
        } else if i == 4 {
        } else if i == 5 {
        } else if i == 6 {
        } else if i == 7 {
        } else if i == 8 {
        } else {
            assert(i == 9);
        }
    }
    assert(lang_attr_prefix().subrange(1, 11) =~= lang_key());
    assert forall|i: int| 0 <= i < 9 implies lang_key().subrange(0, 9)[i] == lang_stem()[i] by {
        if i == 0 {
        } else if i == 1 {
        } else if i == 2 {
        } else if i == 3 {
        } else if i == 4 {
        } else if i == 5 {
        } else if i == 6 {
        } else if i == 7 {
        } else {
            assert(i == 8);
        }
    }
    assert(lang_key().subrange(0, 9) =~= lang_stem());
    assert forall|i: int| 0 <= i < 12 implies id_attr_prefix()[i] != '\"' by {
        if i == 0 {
        } else if i == 1 {
        } else if i == 2 {
        } else if i == 3 {
        } else if i == 4 {
        } else if i == 5 {
        } else if i == 6 {
        } else if i == 7 {
        } else if i == 8 {
        } else if i == 9 {
        } else if i == 10 {
        } else {
            assert(i == 11);
        }
    }
    assert forall|i: int| 0 <= i < 10 implies lang_attr_prefix()[i] != '\"' by {
        if i == 0 {
        } else if i == 1 {
        } else if i == 2 {
        } else if i == 3 {
        } else if i == 4 {
        } else if i == 5 {
        } else if i == 6 {
        } else if i == 7 {
        } else if i == 8 {
        } else {
            assert(i == 9);
        }
    }
    assert forall|i: int| 0 <= i < 13 implies id_attr_prefix()[i] != 'l' by {
        if i == 0 {
        } else if i == 1 {
        } else if i == 2 {
        } else if i == 3 {
        } else if i == 4 {
        } else if i == 5 {
        } else if i == 6 {
        } else if i == 7 {
        } else if i == 8 {
        } else if i == 9 {
        } else if i == 10 {
        } else if i == 11 {
        } else {
            assert(i == 12);
        }
    }
}


// ---------------------------------------------------------------------------
// Attribute text
// ---------------------------------------------------------------------------

/// The attribute keys as the decoder searches for them.  Like the
/// original wire convention, a key counts wherever it stands in the
/// region, with no demand on what surrounds it.
pub open spec fn id_key() -> Seq<char> {
    "identifier=\""@
}

pub open spec fn lang_key() -> Seq<char> {
    "language=\""@
}

/// The language key without its opening quote.
pub open spec fn lang_stem() -> Seq<char> {
    "language="@
}

/// A full attribute hit at `p`: the key occurs there, followed by a
/// non-empty run of quote-free characters closed by a quote.
pub open spec fn attr_match_at(attrs: Seq<char>, key: Seq<char>, p: int) -> bool {
    &&& match_at(attrs, key, p)
    &&& match find_from(attrs, quote_text(), p + key.len()) {
        Some(j) => j > p + key.len(),
        None => false,
    }
}

/// Position of the first full attribute hit at or after `from`, if any.
pub open spec fn find_attr_from(attrs: Seq<char>, key: Seq<char>, from: int) -> Option<int>
    decreases attrs.len() - from,
{
    if from < 0 || from + key.len() > attrs.len() {
        None
    } else if attr_match_at(attrs, key, from) {
        Some(from)
    } else if key.len() == 0 {
        // unreachable for the non-empty keys this decoder searches for
        None
    } else {
        find_attr_from(attrs, key, from + 1)
    }
}

/// The value of the first full hit of `key`, if any: the text between the
/// key's opening quote and the next quote.
pub open spec fn attr_value(attrs: Seq<char>, key: Seq<char>) -> Option<Seq<char>> {
    match find_attr_from(attrs, key, 0) {
        None => None,
        Some(p) => Some(
            attrs.subrange(p + key.len(), find_from(attrs, quote_text(), p + key.len()).unwrap()),
        ),
    }
}

/// Decodes the attribute region of an opening marker.  Each attribute is
/// extracted independently, wherever it stands and whatever surrounds it:
/// a missing or empty identifier degrades to the placeholder while a
/// well-formed language is still kept, and nothing here ever fails.
pub open spec fn parse_attrs(attrs: Seq<char>) -> (Seq<char>, Option<Seq<char>>) {
    (
        match attr_value(attrs, id_key()) {
            Some(v) => v,
            None => unknown_id(),
        },
        attr_value(attrs, lang_key()),
    )
}

/// The earliest full attribute hit at or after `from` is what the search
/// returns.
proof fn lemma_find_attr_is_first(attrs: Seq<char>, key: Seq<char>, from: int, j: int)
    requires
        key.len() > 0,
        0 <= from <= j,
        attr_match_at(attrs, key, j),
        forall|k: int| from <= k < j ==> !attr_match_at(attrs, key, k),
    ensures
        find_attr_from(attrs, key, from) == Some(j),
    decreases j - from,
{
    if from < j {
        lemma_find_attr_is_first(attrs, key, from + 1, j);
    }
}

/// With no full attribute hit anywhere at or after `from`, the search
/// fails.
proof fn lemma_find_attr_is_none(attrs: Seq<char>, key: Seq<char>, from: int)
    requires
        key.len() > 0,
        0 <= from,
        forall|k: int| from <= k ==> !attr_match_at(attrs, key, k),
    ensures
        find_attr_from(attrs, key, from) is None,
    decreases attrs.len() - from,
{
    if from + key.len() <= attrs.len() {
        lemma_find_attr_is_none(attrs, key, from + 1);
    }
}

/// The artifact segment decoded from an attribute region and a body.
pub open spec fn artifact_from(attrs: Seq<char>, body: Seq<char>) -> PartView {
    PartView::Artifact {
        identifier: parse_attrs(attrs).0,
        language: parse_attrs(attrs).1,
        content: body,
    }
}

// ---------------------------------------------------------------------------
// Locating the first complete marker pair
// ---------------------------------------------------------------------------

/// Start of the first opening marker.
pub open spec fn pair_open(s: Seq<char>) -> Option<int> {
    find_from(s, open_marker(), 0)
}

/// Position of the `'>'` that closes the first opening marker's attributes.
pub open spec fn pair_gt(s: Seq<char>) -> Option<int> {
    if pair_open(s) is Some {
        find_from(s, gt_text(), pair_open(s)->0 + 16)
    } else {
        None
    }
}

/// Start of the closing marker that ends the first complete pair.
pub open spec fn pair_close(s: Seq<char>) -> Option<int> {
    if pair_gt(s) is Some {
        find_from(s, close_marker(), pair_gt(s)->0 + 1)
    } else {
        None
    }
}

/// Whether `s` contains a complete marker pair.
pub open spec fn has_pair(s: Seq<char>) -> bool {
    pair_close(s) is Some
}

/// The positions returned by a successful pair scan, with their
/// first-occurrence properties.
pub proof fn lemma_pair_bounds(s: Seq<char>)
    requires
        has_pair(s),
    ensures
        ({
            let o = pair_open(s)->0;
            let g = pair_gt(s)->0;
            let c = pair_close(s)->0;
            &&& 0 <= o
            &&& o + 16 <= g
            &&& g + 1 <= c
            &&& c + 18 <= s.len()
            &&& match_at(s, open_marker(), o)
            &&& match_at(s, gt_text(), g)
            &&& match_at(s, close_marker(), c)
            &&& forall|k: int| 0 <= k < o ==> !match_at(s, open_marker(), k)
            &&& forall|k: int| o + 16 <= k < g ==> !match_at(s, gt_text(), k)
            &&& forall|k: int| g + 1 <= k < c ==> !match_at(s, close_marker(), k)
        }),
{
    lemma_marker_facts();
    let o = pair_open(s)->0;
    let g = pair_gt(s)->0;
    let c = pair_close(s)->0;
    lemma_find_from_some(s, open_marker(), 0, o);
    lemma_find_from_some(s, gt_text(), o + 16, g);
    lemma_find_from_some(s, close_marker(), g + 1, c);
}

// ---------------------------------------------------------------------------
// The segment decomposition of a complete text
// ---------------------------------------------------------------------------

/// The segments finalized by the first complete marker pair of `s`: the text
/// before the opening marker, if any, then the artifact itself.
pub open spec fn head_parts(s: Seq<char>) -> Seq<PartView>
    recommends
        has_pair(s),
{
    let o = pair_open(s)->0;
    let g = pair_gt(s)->0;
    let c = pair_close(s)->0;
    (if o > 0 {
        seq![PartView::Markdown(s.take(o))]
    } else {
        Seq::<PartView>::empty()
    }) + seq![artifact_from(s.subrange(o + 16, g), s.subrange(g + 1, c))]
}

/// The complete ordered segment sequence decoded from `s`: marker pairs are
/// peeled off left to right; whatever remains, including an unterminated
/// marker, is a trailing text segment.
pub open spec fn seg_spec(s: Seq<char>) -> Seq<PartView>
    decreases s.len(),
    via seg_spec_decreases
{
    if has_pair(s) {
        head_parts(s) + seg_spec(s.skip(pair_close(s)->0 + 18))
    } else if s.len() > 0 {
        seq![PartView::Markdown(s)]
    } else {
        Seq::<PartView>::empty()
    }
}

#[via_fn]
proof fn seg_spec_decreases(s: Seq<char>) {
    if has_pair(s) {
        lemma_pair_bounds(s);
    }
}

/// An unterminated marker degrades to text: a buffer holding no complete
/// marker pair decodes to one literal text segment, never to an error.
pub proof fn lemma_unterminated_is_text(s: Seq<char>)
    requires
        !has_pair(s),
        s.len() > 0,
    ensures
        seg_spec(s) == seq![PartView::Markdown(s)],
{
}

// ---------------------------------------------------------------------------
// Incremental scanning is faithful to the whole-text decomposition
// ---------------------------------------------------------------------------

/// `src` is a fully decoded prefix: however the stream continues, its
/// decoding is `ps` followed by the decoding of the continuation.
pub open spec fn emits(src: Seq<char>, ps: Seq<PartView>) -> bool {
    forall|t: Seq<char>| #[trigger] seg_spec(src + t) == ps + seg_spec(t)
}

pub proof fn lemma_emits_empty()
    ensures
        emits(Seq::<char>::empty(), Seq::<PartView>::empty()),
{
    assert forall|t: Seq<char>|
        #[trigger] seg_spec(Seq::<char>::empty() + t) == Seq::<PartView>::empty() + seg_spec(
            t,
        ) by {
        assert(Seq::<char>::empty() + t =~= t);
        assert(Seq::<PartView>::empty() + seg_spec(t) =~= seg_spec(t));
    }
}

/// The first complete pair of a buffer is unaffected by anything appended
/// after it: the scan positions, and the segments they delimit, carry over
/// from the buffer's pair-closing prefix to any extension of it.
pub proof fn lemma_pair_prefix_stable(b: Seq<char>, t: Seq<char>)
    requires
        has_pair(b),
    ensures
        ({
            let c = pair_close(b)->0;
            let w = b.take(c + 18) + t;
            &&& pair_open(w) == pair_open(b)
            &&& pair_gt(w) == pair_gt(b)
            &&& pair_close(w) == pair_close(b)
            &&& has_pair(w)
            &&& head_parts(w) == head_parts(b)
            &&& w.skip(c + 18) == t
        }),
{
    lemma_marker_facts();
    lemma_pair_bounds(b);
    let o = pair_open(b)->0;
    let g = pair_gt(b)->0;
    let c = pair_close(b)->0;
    let u = b.take(c + 18);
    let w = u + t;
    assert(forall|i: int| 0 <= i < c + 18 ==> w[i] == b[i]);
    // the opening marker occurs first at o in w as well
    assert(w.subrange(o, o + 16) =~= b.subrange(o, o + 16));
    assert(match_at(w, open_marker(), o));
    assert forall|k: int| 0 <= k < o implies !match_at(w, open_marker(), k) by {
        if match_at(w, open_marker(), k) {
            assert(w.subrange(k, k + 16) =~= b.subrange(k, k + 16));
            assert(match_at(b, open_marker(), k));
        }
    }
    lemma_find_from_is_first(w, open_marker(), 0, o);
    // the attribute-closing '>' occurs first at g in w as well
    assert(w.subrange(g, g + 1) =~= b.subrange(g, g + 1));
    assert(match_at(w, gt_text(), g));
    assert forall|k: int| o + 16 <= k < g implies !match_at(w, gt_text(), k) by {
        if match_at(w, gt_text(), k) {
            assert(w.subrange(k, k + 1) =~= b.subrange(k, k + 1));
            assert(match_at(b, gt_text(), k));
        }
    }
    lemma_find_from_is_first(w, gt_text(), o + 16, g);
    // the closing marker occurs first at c in w as well
    assert(w.subrange(c, c + 18) =~= b.subrange(c, c + 18));
    assert(match_at(w, close_marker(), c));
    assert forall|k: int| g + 1 <= k < c implies !match_at(w, close_marker(), k) by {
        if match_at(w, close_marker(), k) {
            assert(w.subrange(k, k + 18) =~= b.subrange(k, k + 18));
            assert(match_at(b, close_marker(), k));
        }
    }
    lemma_find_from_is_first(w, close_marker(), g + 1, c);
    // the delimited segments carry over
    if o > 0 {
        assert(w.take(o) =~= b.take(o));
    }
    assert(w.subrange(o + 16, g) =~= b.subrange(o + 16, g));
    assert(w.subrange(g + 1, c) =~= b.subrange(g + 1, c));
    assert(w.skip(c + 18) =~= t);
}

// ---------------------------------------------------------------------------
// Executable scanning
// ---------------------------------------------------------------------------

/// The view of an optional string.
pub open spec fn opt_view(o: Option<String>) -> Option<Seq<char>> {
    match o {
        Some(s) => Some(s@),
        None => None,
    }
}

/// The value of the first full hit of `key` in `attrs`, searching every
/// position as the wire convention's decoder does.
fn attr_value_exec(attrs: &str, key: &str) -> (r: Option<String>)
    requires
        key@.len() > 0,
    ensures
        opt_view(r) == attr_value(attrs@, key@),
{
    proof {
        lemma_marker_facts();
    }
    let alen: usize = attrs.unicode_len();
    let klen: usize = key.unicode_len();
    if klen > alen {
        return None;
    }
    let mut p: usize = 0;
    while p <= alen - klen
        invariant
            1 <= klen <= alen,
            alen == attrs@.len(),
            klen == key@.len(),
            0 <= p,
            find_attr_from(attrs@, key@, 0) == find_attr_from(attrs@, key@, p as int),
        decreases alen - p,
    {
        if is_match_at(attrs, key, p) {
            match find_str(attrs, "\"", p + klen) {
                Some(j) => {
                    proof {
                        lemma_find_from_some(attrs@, quote_text(), p as int + klen, j as int);
                    }
                    if j > p + klen {
                        proof {
                            assert(attr_match_at(attrs@, key@, p as int));
                            assert(find_attr_from(attrs@, key@, p as int) == Some(p as int));
                        }
                        return Some(attrs.substring_char(p + klen, j).to_owned());
                    }
                    proof {
                        assert(!attr_match_at(attrs@, key@, p as int));
                        assert(find_attr_from(attrs@, key@, p as int) == find_attr_from(
                            attrs@,
                            key@,
                            p as int + 1,
                        ));
                    }
                },
                None => {
                    proof {
                        assert(!attr_match_at(attrs@, key@, p as int));
                        assert(find_attr_from(attrs@, key@, p as int) == find_attr_from(
                            attrs@,
                            key@,
                            p as int + 1,
                        ));
                    }
                },
            }
        } else {
            proof {
                assert(!attr_match_at(attrs@, key@, p as int));
                assert(find_attr_from(attrs@, key@, p as int) == find_attr_from(
                    attrs@,
                    key@,
                    p as int + 1,
                ));
            }
        }
        p = p + 1;
    }
    proof {
        assert(find_attr_from(attrs@, key@, p as int) is None);
    }
    None
}

/// Decodes an attribute region: each attribute independently, with the
/// placeholder substituted only for a missing or empty identifier.
fn parse_attrs_exec(attrs: &str) -> (r: (String, Option<String>))
    ensures
        r.0@ == parse_attrs(attrs@).0,
        opt_view(r.1) == parse_attrs(attrs@).1,
{
    proof {
        lemma_attr_key_facts();
    }
    let id = match attr_value_exec(attrs, "identifier=\"") {
        Some(v) => v,
        None => String::from_str("unknown"),
    };
    let lang = attr_value_exec(attrs, "language=\"");
    (id, lang)
}

/// Locates the first complete marker pair of `hay`, as the positions of its
/// opening marker, attribute-closing `'>'`, and closing marker.
fn find_pair(hay: &str) -> (r: Option<(usize, usize, usize)>)
    ensures
        match r {
            Some(t) => {
                &&& pair_open(hay@) == Some(t.0 as int)
                &&& pair_gt(hay@) == Some(t.1 as int)
                &&& pair_close(hay@) == Some(t.2 as int)
            },
            None => !has_pair(hay@),
        },
{
    proof {
        lemma_marker_facts();
    }
    let hlen: usize = hay.unicode_len();
    let o = match find_str(hay, "<ClaippyArtifact", 0) {
        None => {
            return None;
        },
        Some(o) => o,
    };
    proof {
        lemma_find_from_some(hay@, open_marker(), 0, o as int);
    }
    let g = match find_str(hay, ">", o + 16) {
        None => {
            return None;
        },
        Some(g) => g,
    };
    proof {
        lemma_find_from_some(hay@, gt_text(), o as int + 16, g as int);
    }
    let c = match find_str(hay, "</ClaippyArtifact>", g + 1) {
        None => {
            return None;
        },
        Some(c) => c,
    };
    Some((o, g, c))
}

// ---------------------------------------------------------------------------
// The incremental segmenter
// ---------------------------------------------------------------------------

/// Consumes a model response as a sequence of text chunks, finalizing typed
/// segments as soon as their delimiters have fully arrived.  Chunk boundaries
/// carry no meaning: the final segment sequence depends only on the
/// concatenation of all chunks consumed.
pub struct Segmenter {
    finalized: Vec<MessageParts>,
    buffer: String,
    processed: Ghost<Seq<char>>,
}

impl Segmenter {
    /// All input consumed so far, independent of how it was chunked.
    pub closed spec fn consumed(self) -> Seq<char> {
        self.processed@ + self.buffer@
    }

    /// Views of the segments finalized so far.
    pub closed spec fn parts(self) -> Seq<PartView> {
        part_views(self.finalized@)
    }

    /// The segmenter's invariant: the finalized segments decode a prefix of
    /// the consumed input, and the pending buffer holds no complete pair.
    pub closed spec fn wf(self) -> bool {
        &&& emits(self.processed@, self.parts())
        &&& !has_pair(self.buffer@)
    }

    pub fn new() -> (r: Segmenter)
        ensures
            r.wf(),
            r.consumed() == Seq::<char>::empty(),
            r.parts() == Seq::<PartView>::empty(),
    {
        let r = Segmenter {
            finalized: Vec::new(),
            buffer: String::new(),
            processed: Ghost(Seq::empty()),
        };
        proof {
            lemma_emits_empty();
            assert(r.consumed() =~= Seq::<char>::empty());
            assert(part_views(r.finalized@) =~= Seq::<PartView>::empty());
        }
        r
    }

    /// Consumes one chunk, finalizing every segment whose delimiters are now
    /// complete.  Already-finalized segments are never revisited, so both the
    /// live renderer and the final result observe the same sequence.
    pub fn push_chunk(&mut self, chunk: &str)
        requires
            old(self).wf(),
        ensures
            final(self).wf(),
            final(self).consumed() == old(self).consumed() + chunk@,
            old(self).parts().is_prefix_of(final(self).parts()),
    {
        self.buffer.append(chunk);
        proof {
            assert(self.processed@ + self.buffer@ =~= old(self).consumed() + chunk@);
        }
        loop
            invariant
                emits(self.processed@, part_views(self.finalized@)),
                self.processed@ + self.buffer@ == old(self).consumed() + chunk@,
                old(self).finalized@.is_prefix_of(self.finalized@),
            ensures
                emits(self.processed@, part_views(self.finalized@)),
                self.processed@ + self.buffer@ == old(self).consumed() + chunk@,
                old(self).finalized@.is_prefix_of(self.finalized@),
                !has_pair(self.buffer@),
            decreases self.buffer@.len(),
        {
            let ghost b = self.buffer@;
            let ghost d = part_views(self.finalized@);
            let (o, g, c) = match find_pair(self.buffer.as_str()) {
                None => {
                    break;
                },
                Some(t) => t,
            };
            proof {
                lemma_pair_bounds(b);
            }
            let blen: usize = self.buffer.unicode_len();
            let pre = self.buffer.as_str().substring_char(0, o).to_owned();
            let attrs = self.buffer.as_str().substring_char(o + 16, g).to_owned();
            let body = self.buffer.as_str().substring_char(g + 1, c).to_owned();
            let rest = self.buffer.as_str().substring_char(c + 18, blen).to_owned();
            let (ident, lang) = parse_attrs_exec(attrs.as_str());
            if o > 0 {
                self.finalized.push(MessageParts::Markdown(pre));
            }
            self.finalized.push(
                MessageParts::Artifact { identifier: ident, language: lang, content: body },
            );
            proof {
                assert(part_views(self.finalized@) =~= d + head_parts(b));
                lemma_emits_step(self.processed@, d, b);
            }
            self.processed = Ghost(self.processed@ + b.take(c as int + 18));
            self.buffer = rest;
            proof {
                assert(self.processed@ + self.buffer@ =~= old(self).consumed() + chunk@);
            }
        }
        proof {
            assert(old(self).parts().is_prefix_of(self.parts())) by {
                assert forall|i: int| 0 <= i < old(self).finalized@.len() implies old(
                    self,
                ).parts()[i] == self.parts()[i] by {
                    assert(old(self).finalized@[i] == self.finalized@[i]);
                }
            }
        }
    }

    /// The segments finalized so far, for live rendering while the stream is
    /// still in flight.
    pub fn finalized_so_far(&self) -> (r: &Vec<MessageParts>)
        ensures
            part_views(r@) == self.parts(),
    {
        &self.finalized
    }

    /// Ends the stream: whatever remains buffered, such as an unterminated
    /// marker, is finalized as a trailing text segment.  The result is
    /// exactly the decoding of the concatenation of all consumed chunks,
    /// however they were split.
    pub fn finish(self) -> (r: Vec<MessageParts>)
        requires
            self.wf(),
        ensures
            part_views(r@) == seg_spec(self.consumed()),
            self.parts().is_prefix_of(part_views(r@)),
    {
        let Segmenter { mut finalized, buffer, processed } = self;
        let ghost d = part_views(finalized@);
        let nonempty = buffer.unicode_len() > 0;
        if nonempty {
            finalized.push(MessageParts::Markdown(buffer));
            proof {
                assert(part_views(finalized@) =~= d.push(
                    PartView::Markdown(self.buffer@),
                ));
            }
        }
        proof {
            assert(seg_spec(self.processed@ + self.buffer@) == d + seg_spec(self.buffer@));
            if self.buffer@.len() > 0 {
                assert(seg_spec(self.buffer@) == seq![PartView::Markdown(self.buffer@)]);
                assert(part_views(finalized@) =~= d + seg_spec(self.buffer@));
            } else {
                assert(seg_spec(self.buffer@) =~= Seq::<PartView>::empty());
                assert(part_views(finalized@) =~= d + seg_spec(self.buffer@));
            }
            assert forall|i: int| 0 <= i < d.len() implies d[i] == part_views(finalized@)[i] by {}
        }
        finalized
    }
}

/// Decodes a complete response text into its segment sequence in one step.
pub fn parse_message_parts(full_content: String) -> (r: Vec<MessageParts>)
    ensures
        part_views(r@) == seg_spec(full_content@),
{
    let mut seg = Segmenter::new();
    seg.push_chunk(full_content.as_str());
    proof {
        assert(seg.consumed() =~= full_content@);
    }
    seg.finish()
}

/// Extending a fully decoded prefix by a buffer's pair-closing prefix
/// finalizes exactly that pair's segments.
pub proof fn lemma_emits_step(src: Seq<char>, d: Seq<PartView>, b: Seq<char>)
    requires
        emits(src, d),
        has_pair(b),
    ensures
        emits(src + b.take(pair_close(b)->0 + 18), d + head_parts(b)),
{
    lemma_pair_bounds(b);
    let c = pair_close(b)->0;
    let u = b.take(c + 18);
    assert forall|t: Seq<char>|
        #[trigger] seg_spec((src + u) + t) == (d + head_parts(b)) + seg_spec(t) by {
        assert((src + u) + t =~= src + (u + t));
        assert(seg_spec(src + (u + t)) == d + seg_spec(u + t));
        lemma_pair_prefix_stable(b, t);
        assert(seg_spec(u + t) == head_parts(b) + seg_spec(t));
        assert((d + head_parts(b)) + seg_spec(t) =~= d + (head_parts(b) + seg_spec(t)));
    }
}

// ---------------------------------------------------------------------------
// Encoding segments back into their literal wire form
// ---------------------------------------------------------------------------

/// The attribute region that an artifact's identifier and language encode to.
pub open spec fn attrs_encoding(id: Seq<char>, lang: Option<Seq<char>>) -> Seq<char> {
    id_attr_prefix() + id + quote_text() + match lang {
        None => Seq::<char>::empty(),
        Some(l) => lang_attr_prefix() + l + quote_text(),
    }
}

/// The literal form of an artifact: its marker pair around its body.
pub open spec fn artifact_encoding(id: Seq<char>, lang: Option<Seq<char>>, body: Seq<char>) -> Seq<
    char,
> {
    open_marker() + attrs_encoding(id, lang) + gt_text() + body + close_marker()
}

/// The literal form of one segment.
pub open spec fn part_encoding(p: PartView) -> Seq<char> {
    match p {
        PartView::Markdown(t) => t,
        PartView::Artifact { identifier, language, content } => artifact_encoding(
            identifier,
            language,
            content,
        ),
    }
}

/// The literal form of a segment sequence: the concatenation of its parts.
pub open spec fn parts_encoding(ps: Seq<PartView>) -> Seq<char>
    decreases ps.len(),
{
    if ps.len() == 0 {
        Seq::<char>::empty()
    } else {
        part_encoding(ps[0]) + parts_encoding(ps.skip(1))
    }
}

// ---------------------------------------------------------------------------
// Well-formed segments round-trip exactly
// ---------------------------------------------------------------------------

/// `p` never occurs within `s`.
pub open spec fn no_occurrence(s: Seq<char>, p: Seq<char>) -> bool {
    forall|k: int| !match_at(s, p, k)
}

/// An attribute value that survives quoting: non-empty, and free of the
/// quote and marker-closing characters.
pub open spec fn attr_value_ok(v: Seq<char>) -> bool {
    &&& v.len() > 0
    &&& forall|i: int| 0 <= i < v.len() ==> v[i] != '"' && v[i] != '>'
}

/// The one identifier shape that collides with the language search in an
/// encoded attribute region: an identifier ending in the language key's
/// text, whose closing quote would complete a spurious language hit.
pub open spec fn id_collides_with_lang_key(id: Seq<char>) -> bool {
    id.len() >= 9 && id.subrange(id.len() - 9, id.len() as int) == lang_stem()
}

/// A segment whose literal form decodes back to itself: text must not embed
/// an opening marker, and an artifact's body must not embed the closing one.
pub open spec fn part_ok(p: PartView) -> bool {
    match p {
        PartView::Markdown(t) => t.len() > 0 && no_occurrence(t, open_marker()),
        PartView::Artifact { identifier, language, content } => {
            &&& attr_value_ok(identifier)
            &&& (language is Some ==> attr_value_ok(language->0) && !id_collides_with_lang_key(
                identifier,
            ))
            &&& no_occurrence(content, close_marker())
        },
    }
}

pub open spec fn parts_ok_at(ps: Seq<PartView>, i: int) -> bool {
    &&& part_ok(ps[i])
    &&& ((ps[i] is Markdown && i + 1 < ps.len()) ==> ps[i + 1] is Artifact)
}

/// A segment sequence in the segmenter's image: every part is well formed,
/// and no two text segments are adjacent (the decoder always merges them).
pub open spec fn parts_ok(ps: Seq<PartView>) -> bool {
    forall|i: int| 0 <= i < ps.len() ==> #[trigger] parts_ok_at(ps, i)
}

/// No character of a well-formed attribute region is `'>'`.
proof fn lemma_attrs_encoding_no_gt(id: Seq<char>, lang: Option<Seq<char>>)
    requires
        attr_value_ok(id),
        lang is Some ==> attr_value_ok(lang->0),
    ensures
        forall|i: int|
            0 <= i < attrs_encoding(id, lang).len() ==> attrs_encoding(id, lang)[i] != '>',
{
    lemma_marker_facts();
    reveal_strlit("\"");
    let a = attrs_encoding(id, lang);
    assert forall|i: int| 0 <= i < a.len() implies a[i] != '>' by {
        if i < 13 {
            assert(a[i] == id_attr_prefix()[i]);
        } else if i < 13 + id.len() {
            assert(a[i] == id[i - 13]);
        } else if i == 13 + id.len() {
            assert(a[i] == quote_text()[0]);
        } else {
            match lang {
                None => {
                    assert(a.len() == 14 + id.len());
                },
                Some(l) => {
                    let base = 14 + id.len() as int;
                    if i < base + 11 {
                        assert(a[i] == lang_attr_prefix()[i - base]);
                    } else if i < base + 11 + l.len() {
                        assert(a[i] == l[i - base - 11]);
                    } else {
                        assert(i == base + 11 + l.len());
                        assert(a[i] == quote_text()[0]);
                    }
                },
            }
        }
    }
}

/// Decoding the attribute region that an identifier and language encode to
/// recovers them exactly.
proof fn lemma_parse_attrs_encoding(id: Seq<char>, lang: Option<Seq<char>>)
    requires
        attr_value_ok(id),
        lang is Some ==> attr_value_ok(lang->0) && !id_collides_with_lang_key(id),
    ensures
        parse_attrs(attrs_encoding(id, lang)) == (id, lang),
{
    lemma_marker_facts();
    lemma_attr_key_facts();
    reveal_strlit("\"");
    let a = attrs_encoding(id, lang);
    let n = id.len() as int;
    // the identifier key has its first full hit at position 1
    assert(a.subrange(1, 13) =~= id_attr_prefix().subrange(1, 13));
    assert(match_at(a, id_key(), 1));
    assert(a[13 + n] == quote_text()[0]);
    assert(match_at(a, quote_text(), 13 + n)) by {
        assert(a.subrange(13 + n, 14 + n) =~= quote_text());
    }
    assert forall|k: int| 13 <= k < 13 + n implies !match_at(a, quote_text(), k) by {
        if match_at(a, quote_text(), k) {
            assert(a.subrange(k, k + 1)[0] == quote_text()[0]);
            assert(a[k] == '\"');
            assert(a[k] == id[k - 13]);
        }
    }
    lemma_find_from_is_first(a, quote_text(), 13, 13 + n);
    assert(attr_match_at(a, id_key(), 1));
    assert(!attr_match_at(a, id_key(), 0)) by {
        if match_at(a, id_key(), 0) {
            assert(a.subrange(0, 12)[0] == id_key()[0]);
            assert(a[0] == 'i');
            assert(a[0] == id_attr_prefix()[0]);
        }
    }
    lemma_find_attr_is_first(a, id_key(), 0, 1);
    assert(a.subrange(13, 13 + n) =~= id);
    assert(parse_attrs(a).0 == id);
    match lang {
        None => {
            assert(a.len() == 14 + n);
            // every quote of the region stands at 12 or at 13 + n
            assert forall|i: int|
                0 <= i < a.len() && a[i] == '\"' implies i == 12 || i == 13 + n by {
                if i < 13 {
                    assert(a[i] == id_attr_prefix()[i]);
                } else if i < 13 + n {
                    assert(a[i] == id[i - 13]);
                }
            }
            // so the language key has no full hit anywhere
            assert forall|p: int| 0 <= p implies !attr_match_at(a, lang_key(), p) by {
                if attr_match_at(a, lang_key(), p) {
                    assert(a.subrange(p, p + 10)[9] == lang_key()[9]);
                    assert(a[p + 9] == '\"');
                    if p + 9 == 12 {
                        assert(a.subrange(p, p + 10)[0] == lang_key()[0]);
                        assert(a[p] == 'l');
                        assert(a[p] == id_attr_prefix()[p]);
                    } else {
                        assert(p + 9 == 13 + n);
                        // the value run would have to begin past the end
                        assert(find_from(a, quote_text(), p + 10) is None);
                    }
                }
            }
            lemma_find_attr_is_none(a, lang_key(), 0);
            assert(parse_attrs(a).1 is None);
        },
        Some(l) => {
            let m = l.len() as int;
            assert(a.len() == 26 + n + m);
            assert(a[24 + n] == lang_attr_prefix()[10]);
            assert(a[25 + n + m] == quote_text()[0]);
            // every quote of the region stands at one of four places
            assert forall|i: int|
                0 <= i < a.len() && a[i] == '\"' implies i == 12 || i == 13 + n || i == 24 + n
                    || i == 25 + n + m by {
                if i < 13 {
                    assert(a[i] == id_attr_prefix()[i]);
                } else if i < 13 + n {
                    assert(a[i] == id[i - 13]);
                } else if 14 + n <= i < 25 + n {
                    assert(a[i] == lang_attr_prefix()[i - (14 + n)]);
                } else if 25 + n <= i < 25 + n + m {
                    assert(a[i] == l[i - (25 + n)]);
                }
            }
            // the language key has its first full hit at 15 + n
            assert(a.subrange(15 + n, 25 + n) =~= lang_attr_prefix().subrange(1, 11));
            assert(match_at(a, lang_key(), 15 + n));
            assert(match_at(a, quote_text(), 25 + n + m)) by {
                assert(a.subrange(25 + n + m, 26 + n + m) =~= quote_text());
            }
            assert forall|k: int|
                25 + n <= k < 25 + n + m implies !match_at(a, quote_text(), k) by {
                if match_at(a, quote_text(), k) {
                    assert(a.subrange(k, k + 1)[0] == quote_text()[0]);
                    assert(a[k] == '\"');
                    assert(a[k] == l[k - (25 + n)]);
                }
            }
            lemma_find_from_is_first(a, quote_text(), 25 + n, 25 + n + m);
            assert(attr_match_at(a, lang_key(), 15 + n));
            // and no full hit before it
            assert forall|p: int| 0 <= p < 15 + n implies !attr_match_at(a, lang_key(), p) by {
                if attr_match_at(a, lang_key(), p) {
                    assert(a.subrange(p, p + 10)[9] == lang_key()[9]);
                    assert(a[p + 9] == '\"');
                    if p < 13 {
                        assert(a.subrange(p, p + 10)[0] == lang_key()[0]);
                        assert(a[p] == 'l');
                        assert(a[p] == id_attr_prefix()[p]);
                    } else {
                        // p + 9 lands on the identifier's closing quote, so
                        // the identifier would end in the language key's text
                        assert(p + 9 == 13 + n);
                        assert(p == 4 + n);
                        assert(n >= 9);
                        assert forall|k2: int|
                            0 <= k2 < 9 implies id.subrange(n - 9, n)[k2] == lang_stem()[k2] by {
                            assert(a.subrange(p, p + 10)[k2] == lang_key()[k2]);
                            assert(a[p + k2] == lang_key()[k2]);
                            assert(a[p + k2] == id[(p + k2) - 13]);
                            assert(lang_key().subrange(0, 9)[k2] == lang_stem()[k2]);
                        }
                        assert(id.subrange(n - 9, n) =~= lang_stem());
                        assert(id_collides_with_lang_key(id));
                    }
                }
            }
            lemma_find_attr_is_first(a, lang_key(), 0, 15 + n);
            assert(a.subrange(25 + n, 25 + n + m) =~= l);
            assert(parse_attrs(a).1 == Some(l));
        },
    }
}

/// In `text ++ artifact ++ rest`, the first complete marker pair is exactly
/// the artifact's own pair, and it delimits the artifact's attribute region
/// and body.
proof fn lemma_encoding_head(
    t: Seq<char>,
    id: Seq<char>,
    lang: Option<Seq<char>>,
    body: Seq<char>,
    rest: Seq<char>,
)
    requires
        no_occurrence(t, open_marker()),
        attr_value_ok(id),
        lang is Some ==> attr_value_ok(lang->0),
        no_occurrence(body, close_marker()),
    ensures
        ({
            let w = t + artifact_encoding(id, lang, body) + rest;
            let o = t.len() as int;
            let g = o + 16 + attrs_encoding(id, lang).len() as int;
            let c = g + 1 + body.len() as int;
            &&& pair_open(w) == Some(o)
            &&& pair_gt(w) == Some(g)
            &&& pair_close(w) == Some(c)
            &&& has_pair(w)
            &&& w.take(o) == t
            &&& w.subrange(o + 16, g) == attrs_encoding(id, lang)
            &&& w.subrange(g + 1, c) == body
            &&& w.skip(c + 18) == rest
        }),
{
    lemma_marker_facts();
    lemma_attrs_encoding_no_gt(id, lang);
    let a = attrs_encoding(id, lang);
    let enc = artifact_encoding(id, lang, body);
    let w = t + enc + rest;
    let o = t.len() as int;
    let g = o + 16 + a.len() as int;
    let c = g + 1 + body.len() as int;
    // the opening marker occurs first at o
    assert(w.subrange(o, o + 16) =~= open_marker());
    assert(match_at(w, open_marker(), o));
    assert forall|k: int| 0 <= k < o implies !match_at(w, open_marker(), k) by {
        if match_at(w, open_marker(), k) {
            if k + 16 <= o {
                assert(w.subrange(k, k + 16) =~= t.subrange(k, k + 16));
                assert(match_at(t, open_marker(), k));
            } else {
                assert(w[o] == '<');
                lemma_no_straddle(w, open_marker(), k, o);
            }
        }
    }
    lemma_find_from_is_first(w, open_marker(), 0, o);
    // the attribute-closing '>' occurs first at g
    assert(w.subrange(g, g + 1) =~= gt_text());
    assert(match_at(w, gt_text(), g));
    assert forall|k: int| o + 16 <= k < g implies !match_at(w, gt_text(), k) by {
        if match_at(w, gt_text(), k) {
            assert(w.subrange(k, k + 1)[0] == gt_text()[0]);
            assert(w[k] == '>');
            assert(w[k] == a[k - (o + 16)]);
        }
    }
    lemma_find_from_is_first(w, gt_text(), o + 16, g);
    // the closing marker occurs first at c
    assert(w.subrange(c, c + 18) =~= close_marker());
    assert(match_at(w, close_marker(), c));
    assert forall|k: int| g + 1 <= k < c implies !match_at(w, close_marker(), k) by {
        if match_at(w, close_marker(), k) {
            if k + 18 <= c {
                assert(w.subrange(k, k + 18) =~= body.subrange(k - (g + 1), k - (g + 1) + 18));
                assert(match_at(body, close_marker(), k - (g + 1)));
            } else {
                assert(w[c] == '<');
                lemma_no_straddle(w, close_marker(), k, c);
            }
        }
    }
    lemma_find_from_is_first(w, close_marker(), g + 1, c);
    // the delimited regions are the encoded components
    assert(w.take(o) =~= t);
    assert(w.subrange(o + 16, g) =~= a);
    assert(w.subrange(g + 1, c) =~= body);
    assert(w.skip(c + 18) =~= rest);
}

/// Decoding `text ++ artifact ++ rest` yields the text segment (if any), the
/// artifact, and then whatever `rest` decodes to.
proof fn lemma_seg_encoding_step(
    t: Seq<char>,
    id: Seq<char>,
    lang: Option<Seq<char>>,
    body: Seq<char>,
    rest: Seq<char>,
)
    requires
        no_occurrence(t, open_marker()),
        attr_value_ok(id),
        lang is Some ==> attr_value_ok(lang->0) && !id_collides_with_lang_key(id),
        no_occurrence(body, close_marker()),
    ensures
        seg_spec(t + artifact_encoding(id, lang, body) + rest) == (if t.len() > 0 {
            seq![PartView::Markdown(t)]
        } else {
            Seq::<PartView>::empty()
        }) + seq![PartView::Artifact { identifier: id, language: lang, content: body }]
            + seg_spec(rest),
{
    lemma_encoding_head(t, id, lang, body, rest);
    lemma_parse_attrs_encoding(id, lang);
    let w = t + artifact_encoding(id, lang, body) + rest;
    let o = t.len() as int;
    let g = o + 16 + attrs_encoding(id, lang).len() as int;
    let c = g + 1 + body.len() as int;
    assert(head_parts(w) == (if t.len() > 0 {
        seq![PartView::Markdown(t)]
    } else {
        Seq::<PartView>::empty()
    }) + seq![PartView::Artifact { identifier: id, language: lang, content: body }]);
    assert(seg_spec(w) == head_parts(w) + seg_spec(rest));
    assert((if t.len() > 0 {
        seq![PartView::Markdown(t)]
    } else {
        Seq::<PartView>::empty()
    }) + seq![PartView::Artifact { identifier: id, language: lang, content: body }] + seg_spec(rest)
        =~= head_parts(w) + seg_spec(rest));
}

/// Restriction of well-formedness to a tail of the sequence.
proof fn lemma_parts_ok_skip(ps: Seq<PartView>, n: int)
    requires
        parts_ok(ps),
        0 <= n <= ps.len(),
    ensures
        parts_ok(ps.skip(n)),
{
    assert forall|i: int| 0 <= i < ps.skip(n).len() implies #[trigger] parts_ok_at(
        ps.skip(n),
        i,
    ) by {
        assert(parts_ok_at(ps, i + n));
        assert(ps.skip(n)[i] == ps[i + n]);
        if i + 1 < ps.skip(n).len() {
            assert(ps.skip(n)[i + 1] == ps[i + n + 1]);
        }
    }
}

/// The round-trip law: encoding a well-formed segment sequence and decoding
/// the result yields the same sequence again.  Well-formedness excludes only
/// what can never round-trip: empty or adjacent text segments, text embedding
/// an opening marker, an artifact body embedding the closing marker,
/// attribute values holding a quote or `'>'`, and an identifier ending in
/// the language key's text beside a language attribute.
pub proof fn lemma_round_trip(ps: Seq<PartView>)
    requires
        parts_ok(ps),
    ensures
        seg_spec(parts_encoding(ps)) == ps,
    decreases ps.len(),
{
    lemma_marker_facts();
    if ps.len() == 0 {
        assert(seg_spec(parts_encoding(ps)) =~= ps);
    } else {
        assert(parts_ok_at(ps, 0));
        match ps[0] {
            PartView::Markdown(t) => {
                if ps.len() == 1 {
                    assert(parts_encoding(ps.skip(1)) =~= Seq::<char>::empty());
                    assert(parts_encoding(ps) =~= t);
                    assert(pair_open(t) is None) by {
                        if pair_open(t) is Some {
                            lemma_find_from_some(t, open_marker(), 0, pair_open(t)->0);
                        }
                    }
                    assert(seg_spec(parts_encoding(ps)) =~= ps);
                } else {
                    assert(ps[1] is Artifact);
                    match ps[1] {
                        PartView::Artifact { identifier, language, content } => {
                            assert(parts_ok_at(ps, 1));
                            let rest = parts_encoding(ps.skip(2));
                            assert(ps.skip(1)[0] == ps[1]);
                            assert(ps.skip(1).skip(1) =~= ps.skip(2));
                            assert(parts_encoding(ps) == part_encoding(ps[0]) + parts_encoding(
                                ps.skip(1),
                            ));
                            assert(parts_encoding(ps.skip(1)) == part_encoding(ps[1])
                                + parts_encoding(ps.skip(2)));
                            assert(parts_encoding(ps) =~= t + artifact_encoding(
                                identifier,
                                language,
                                content,
                            ) + rest);
                            lemma_seg_encoding_step(t, identifier, language, content, rest);
                            lemma_parts_ok_skip(ps, 2);
                            lemma_round_trip(ps.skip(2));
                            assert(seg_spec(parts_encoding(ps)) =~= ps);
                        },
                        PartView::Markdown(_) => {},
                    }
                }
            },
            PartView::Artifact { identifier, language, content } => {
                let rest = parts_encoding(ps.skip(1));
                assert(parts_encoding(ps) =~= Seq::<char>::empty() + artifact_encoding(
                    identifier,
                    language,
                    content,
                ) + rest);
                assert(no_occurrence(Seq::<char>::empty(), open_marker()));
                lemma_seg_encoding_step(
                    Seq::<char>::empty(),
                    identifier,
                    language,
                    content,
                    rest,
                );
                lemma_parts_ok_skip(ps, 1);
                lemma_round_trip(ps.skip(1));
                assert(seg_spec(parts_encoding(ps)) =~= ps);
            },
        }
    }
}

// ---------------------------------------------------------------------------
// Executable encoding
// ---------------------------------------------------------------------------

impl MessageParts {
    /// Re-encodes this segment in its literal wire form.
    pub fn encoded(&self) -> (r: String)
        ensures
            r@ == part_encoding(self@),
    {
        match self {
            MessageParts::Markdown(t) => t.clone(),
            MessageParts::Artifact { identifier, language, content } => {
                let mut s = String::from_str("<ClaippyArtifact");
                s.append(" identifier=\"");
                s.append(identifier.as_str());
                s.append("\"");
                match language {
                    Some(l) => {
                        s.append(" language=\"");
                        s.append(l.as_str());
                        s.append("\"");
                    },
                    None => {},
                }
                s.append(">");
                s.append(content.as_str());
                s.append("</ClaippyArtifact>");
                proof {
                    assert(s@ =~= part_encoding(self@));
                }
                s
            },
        }
    }
}

/// Serializes a segment sequence back into the single literal string it was
/// decoded from.
pub fn encode_parts(parts: &Vec<MessageParts>) -> (r: String)
    ensures
        r@ == parts_encoding(part_views(parts@)),
{
    let ghost vs = part_views(parts@);
    let mut s = String::new();
    let mut i: usize = 0;
    proof {
        assert(vs.skip(0) =~= vs);
        assert(Seq::<char>::empty() + parts_encoding(vs) =~= parts_encoding(vs));
    }
    while i < parts.len()
        invariant
            0 <= i <= parts.len(),
            vs == part_views(parts@),
            s@ + parts_encoding(vs.skip(i as int)) == parts_encoding(vs),
        decreases parts.len() - i,
    {
        let piece = parts[i].encoded();
        s.append(piece.as_str());
        proof {
            assert(vs.skip(i as int).skip(1) =~= vs.skip(i as int + 1));
            assert(vs.skip(i as int)[0] == vs[i as int]);
            assert(parts_encoding(vs.skip(i as int)) == part_encoding(vs[i as int])
                + parts_encoding(vs.skip(i as int + 1)));
            assert(s@ + parts_encoding(vs.skip(i as int + 1)) =~= parts_encoding(vs));
        }
        i = i + 1;
    }
    proof {
        assert(vs.skip(i as int) =~= Seq::<PartView>::empty());
        assert(s@ =~= parts_encoding(vs));
    }
    s
}

} // verus!
