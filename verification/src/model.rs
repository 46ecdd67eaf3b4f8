//! The conversation state machine: an ordered turn history together with the
//! workspace-context set, whose references move from `unseen` to `seen` as
//! they are delivered to the model.
use vstd::prelude::*;

use crate::markers::starts_with_lit;
use crate::segmenter::{
    encode_parts, part_views, parts_encoding, seg_spec, MessageParts, PartView, Segmenter,
};

verus! {

// ---------------------------------------------------------------------------
// Errors
// ---------------------------------------------------------------------------

/// The failures this core surfaces to its caller.  Malformed artifact
/// markers are absorbed by the segmenter and never become errors.
#[derive(Debug, PartialEq, Eq)]
pub enum CoreError {
    /// Fetching a pending workspace reference failed; the turn was not
    /// recorded.
    ContextUnavailable(String),
    /// The model stream failed mid-response; the partial turn was still
    /// recorded.
    TransportError(String),
    /// Persisting the conversation failed; its in-memory state is intact.
    StoreError(String),
}

// ---------------------------------------------------------------------------
// Flat messages
// ---------------------------------------------------------------------------

/// One flattened message as transmitted to the model.
#[derive(Debug, PartialEq, Eq)]
pub struct Message {
    pub role: String,
    pub content: String,
}

pub struct MessageView {
    pub role: Seq<char>,
    pub content: Seq<char>,
}

impl View for Message {
    type V = MessageView;

    open spec fn view(&self) -> MessageView {
        MessageView { role: self.role@, content: self.content@ }
    }
}

/// The flattened message list of one request.
pub struct Messages {
    pub messages: Vec<Message>,
}

impl Messages {
    pub fn new(messages: Vec<Message>) -> (r: Messages)
        ensures
            r.messages == messages,
    {
        Messages { messages }
    }
}

impl From<Vec<Message>> for Messages {
    fn from(messages: Vec<Message>) -> (r: Messages) {
        Messages { messages }
    }
}

impl vstd::std_specs::convert::FromSpecImpl<Vec<Message>> for Messages {
    open spec fn obeys_from_spec() -> bool {
        true
    }

    open spec fn from_spec(messages: Vec<Message>) -> Messages {
        Messages { messages }
    }
}

// ---------------------------------------------------------------------------
// Rich messages
// ---------------------------------------------------------------------------

pub open spec fn user_role_text() -> Seq<char> {
    "user"@
}

pub open spec fn assistant_role_text() -> Seq<char> {
    "assistant"@
}

/// One turn: a role together with its ordered typed segments.
#[derive(Debug, PartialEq, Eq)]
pub struct RichMessage {
    pub role: String,
    pub parts: Vec<MessageParts>,
}

pub struct RichMessageView {
    pub role: Seq<char>,
    pub parts: Seq<PartView>,
}

impl View for RichMessage {
    type V = RichMessageView;

    open spec fn view(&self) -> RichMessageView {
        RichMessageView { role: self.role@, parts: part_views(self.parts@) }
    }
}

/// The flattened form of a turn: its segments re-encoded into one literal
/// string, paired with its role.
pub open spec fn flat_message(rm: RichMessageView) -> MessageView {
    MessageView { role: rm.role, content: parts_encoding(rm.parts) }
}

impl RichMessage {
    /// Serializes this turn for transmission, re-wrapping artifacts in their
    /// original marker syntax; the exact inverse of the segmenter's parse.
    pub fn as_message(&self) -> (r: Message)
        ensures
            r@ == flat_message(self@),
    {
        Message { role: self.role.clone(), content: encode_parts(&self.parts) }
    }
}

// ---------------------------------------------------------------------------
// Workspace context references
// ---------------------------------------------------------------------------

/// A workspace reference: a file path or a URL, compared by its literal
/// text and immutable once created.
#[derive(Debug)]
pub enum WorkspaceContext {
    File(String),
    Url(String),
}

pub enum ContextView {
    File(Seq<char>),
    Url(Seq<char>),
}

impl View for WorkspaceContext {
    type V = ContextView;

    open spec fn view(&self) -> ContextView {
        match self {
            WorkspaceContext::File(s) => ContextView::File(s@),
            WorkspaceContext::Url(s) => ContextView::Url(s@),
        }
    }
}

/// The literal reference text of a context, a path or an address.
pub open spec fn context_text(x: ContextView) -> Seq<char> {
    match x {
        ContextView::File(s) => s,
        ContextView::Url(s) => s,
    }
}

/// Raw strings that begin with a recognized URL scheme become `Url`
/// references; everything else is a file path.
pub open spec fn is_url_text(s: Seq<char>) -> bool {
    ||| s.len() >= 7 && s.subrange(0, 7) == "http://"@
    ||| s.len() >= 8 && s.subrange(0, 8) == "https://"@
}

/// The context reference a raw string parses to.  Never fails.
pub open spec fn context_of(raw: Seq<char>) -> ContextView {
    if is_url_text(raw) {
        ContextView::Url(raw)
    } else {
        ContextView::File(raw)
    }
}

impl WorkspaceContext {
    /// The reference's literal text.
    pub fn text(&self) -> (r: &String)
        ensures
            r@ == context_text(self@),
    {
        match self {
            WorkspaceContext::File(s) => s,
            WorkspaceContext::Url(s) => s,
        }
    }
}

impl Clone for WorkspaceContext {
    fn clone(&self) -> (r: WorkspaceContext)
        ensures
            r == *self,
    {
        match self {
            WorkspaceContext::File(s) => WorkspaceContext::File(s.clone()),
            WorkspaceContext::Url(s) => WorkspaceContext::Url(s.clone()),
        }
    }
}

impl PartialEq for WorkspaceContext {
    fn eq(&self, other: &WorkspaceContext) -> (r: bool) {
        match (self, other) {
            (WorkspaceContext::File(a), WorkspaceContext::File(b)) => *a == *b,
            (WorkspaceContext::Url(a), WorkspaceContext::Url(b)) => *a == *b,
            _ => false,
        }
    }
}

impl vstd::std_specs::cmp::PartialEqSpecImpl for WorkspaceContext {
    open spec fn obeys_eq_spec() -> bool {
        true
    }

    open spec fn eq_spec(&self, other: &WorkspaceContext) -> bool {
        self@ == other@
    }
}

impl From<String> for WorkspaceContext {
    fn from(raw: String) -> (r: WorkspaceContext) {
        proof {
            reveal_strlit("http://");
            reveal_strlit("https://");
        }
        if starts_with_lit(raw.as_str(), "http://") || starts_with_lit(raw.as_str(), "https://") {
            WorkspaceContext::Url(raw)
        } else {
            WorkspaceContext::File(raw)
        }
    }
}

impl vstd::std_specs::convert::FromSpecImpl<String> for WorkspaceContext {
    open spec fn obeys_from_spec() -> bool {
        true
    }

    open spec fn from_spec(raw: String) -> WorkspaceContext {
        if is_url_text(raw@) {
            WorkspaceContext::Url(raw)
        } else {
            WorkspaceContext::File(raw)
        }
    }
}

/// Views of a vector of raw strings.
pub open spec fn string_views(v: Seq<String>) -> Seq<Seq<char>> {
    v.map_values(|s: String| s@)
}

/// Views of a vector of context references.
pub open spec fn context_views(v: Seq<WorkspaceContext>) -> Seq<ContextView> {
    v.map_values(|c: WorkspaceContext| c@)
}

// ---------------------------------------------------------------------------
// Conversation
// ---------------------------------------------------------------------------

/// A conversation: its identifier, its workspace-context partition, and its
/// ordered turn history.  Mutated only through the operations below.
pub struct Conversation {
    pub id: String,
    /// References added but not yet delivered to the model; they will be
    /// resolved into the next user turn.
    pub unseen_context: Vec<WorkspaceContext>,
    /// References already delivered at least once.
    pub seen_context: Vec<WorkspaceContext>,
    pub messages: Vec<RichMessage>,
}

pub struct ConversationView {
    pub id: Seq<char>,
    pub unseen: Seq<ContextView>,
    pub seen: Seq<ContextView>,
    pub messages: Seq<RichMessageView>,
}

impl View for Conversation {
    type V = ConversationView;

    open spec fn view(&self) -> ConversationView {
        ConversationView {
            id: self.id@,
            unseen: context_views(self.unseen_context@),
            seen: context_views(self.seen_context@),
            messages: self.messages@.map_values(|m: RichMessage| m@),
        }
    }
}

/// The context-set invariant, maintained by every reachable state: each of
/// the two sets is duplicate-free, and no reference is both seen and unseen.
pub open spec fn wf_contexts(c: ConversationView) -> bool {
    &&& c.unseen.no_duplicates()
    &&& c.seen.no_duplicates()
    &&& forall|x: ContextView| !(#[trigger] c.unseen.contains(x) && c.seen.contains(x))
}

// ---------------------------------------------------------------------------
// Specification of the conversation transitions
// ---------------------------------------------------------------------------

/// Adding one raw reference: a no-op when the reference is already seen or
/// already pending, an insertion into `unseen` otherwise.
pub open spec fn add_one_context_spec(c: ConversationView, raw: Seq<char>) -> ConversationView {
    let x = context_of(raw);
    if c.seen.contains(x) || c.unseen.contains(x) {
        c
    } else {
        ConversationView { unseen: c.unseen.push(x), ..c }
    }
}

/// Adding a batch of raw references, left to right.
pub open spec fn add_contexts_spec(c: ConversationView, raws: Seq<Seq<char>>) -> ConversationView
    decreases raws.len(),
{
    if raws.len() == 0 {
        c
    } else {
        add_one_context_spec(add_contexts_spec(c, raws.drop_last()), raws.last())
    }
}

/// The sequence with every occurrence of `x` removed, order kept.
pub open spec fn remove_context_from(s: Seq<ContextView>, x: ContextView) -> Seq<ContextView>
    decreases s.len(),
{
    if s.len() == 0 {
        s
    } else {
        remove_context_from(s.drop_last(), x) + (if s.last() == x {
            Seq::<ContextView>::empty()
        } else {
            seq![s.last()]
        })
    }
}

/// Removing one raw reference deletes it from whichever set holds it.
pub open spec fn remove_one_context_spec(c: ConversationView, raw: Seq<char>) -> ConversationView {
    let x = context_of(raw);
    ConversationView {
        unseen: remove_context_from(c.unseen, x),
        seen: remove_context_from(c.seen, x),
        ..c
    }
}

/// Removing a batch of raw references, left to right.
pub open spec fn remove_contexts_spec(c: ConversationView, raws: Seq<Seq<char>>) -> ConversationView
    decreases raws.len(),
{
    if raws.len() == 0 {
        c
    } else {
        remove_one_context_spec(remove_contexts_spec(c, raws.drop_last()), raws.last())
    }
}

/// Clearing empties the turn history and moves every seen reference back to
/// `unseen`, so the next turn re-delivers all known context.
pub open spec fn clear_spec(c: ConversationView) -> ConversationView {
    ConversationView {
        id: c.id,
        unseen: c.unseen + c.seen,
        seen: Seq::<ContextView>::empty(),
        messages: Seq::<RichMessageView>::empty(),
    }
}

/// The source-tagged envelope a fetched reference body is wrapped in before
/// delivery to the model.
pub open spec fn context_envelope(x: ContextView, body: Seq<char>) -> Seq<char> {
    "<ClaippyContext src=\""@ + context_text(x) + "\">"@ + body + "</ClaippyContext>"@
}

/// The concatenated envelopes of the first `n` pending references, each
/// followed by a newline.
pub open spec fn resolved_prefix(
    ctxs: Seq<ContextView>,
    bodies: Seq<Seq<char>>,
    n: int,
) -> Seq<char>
    decreases n,
{
    if n <= 0 {
        Seq::<char>::empty()
    } else {
        resolved_prefix(ctxs, bodies, n - 1) + context_envelope(ctxs[n - 1], bodies[n - 1]) + "\n"@
    }
}

/// Recording a user turn: every pending reference is resolved into the turn
/// ahead of the literal input and moves to `seen`.
pub open spec fn add_user_spec(
    c: ConversationView,
    msg: Seq<char>,
    bodies: Seq<Seq<char>>,
) -> ConversationView {
    ConversationView {
        id: c.id,
        unseen: Seq::<ContextView>::empty(),
        seen: c.seen + c.unseen,
        messages: c.messages.push(
            RichMessageView {
                role: user_role_text(),
                parts: seq![
                    PartView::Markdown(
                        resolved_prefix(c.unseen, bodies, c.unseen.len() as int) + msg,
                    ),
                ],
            },
        ),
    }
}

/// Recording an assistant turn verbatim from the segmenter's output.
pub open spec fn add_assistant_spec(c: ConversationView, parts: Seq<PartView>) -> ConversationView {
    ConversationView {
        messages: c.messages.push(RichMessageView { role: assistant_role_text(), parts }),
        ..c
    }
}

// ---------------------------------------------------------------------------
// Laws of the context set
// ---------------------------------------------------------------------------

/// Adding a reference is idempotent: `add({r}); add({r})` leaves the
/// conversation exactly as a single `add({r})` does.
pub proof fn lemma_add_context_idempotent(c: ConversationView, raw: Seq<char>)
    ensures
        add_contexts_spec(add_contexts_spec(c, seq![raw]), seq![raw]) == add_contexts_spec(
            c,
            seq![raw],
        ),
{
    let one = seq![raw];
    assert(one.drop_last() =~= Seq::<Seq<char>>::empty());
    assert(one.last() == raw);
    assert(add_contexts_spec(c, Seq::<Seq<char>>::empty()) == c);
    let c1 = add_one_context_spec(c, raw);
    assert(add_contexts_spec(c1, Seq::<Seq<char>>::empty()) == c1);
    assert(add_contexts_spec(c, one) == add_one_context_spec(c, raw));
    assert(add_contexts_spec(c1, one) == add_one_context_spec(c1, raw));
    let x = context_of(raw);
    if !(c.seen.contains(x) || c.unseen.contains(x)) {
        assert(c1.unseen.contains(x)) by {
            assert(c1.unseen[c1.unseen.len() - 1] == x);
        }
    }
}

/// Clearing a conversation whose only delivered reference is `x` makes `x`
/// pending again, and the next user turn re-delivers its envelope ahead of
/// the literal input.
pub proof fn lemma_clear_then_readd(
    c: ConversationView,
    x: ContextView,
    msg: Seq<char>,
    body: Seq<char>,
)
    requires
        c.seen == seq![x],
        c.unseen == Seq::<ContextView>::empty(),
    ensures
        clear_spec(c).unseen == seq![x],
        clear_spec(c).seen == Seq::<ContextView>::empty(),
        ({
            let c2 = add_user_spec(clear_spec(c), msg, seq![body]);
            &&& c2.messages.len() == 1
            &&& c2.messages.last().role == user_role_text()
            &&& c2.messages.last().parts == seq![
                PartView::Markdown(context_envelope(x, body) + "\n"@ + msg),
            ]
            &&& c2.seen.contains(x)
        }),
{
    assert(clear_spec(c).unseen =~= seq![x]);
    let c1 = clear_spec(c);
    let bodies = seq![body];
    assert(c1.unseen[0] == x);
    assert(resolved_prefix(c1.unseen, bodies, 1) == resolved_prefix(c1.unseen, bodies, 0)
        + context_envelope(x, body) + "\n"@);
    assert(resolved_prefix(c1.unseen, bodies, 1) + msg =~= context_envelope(x, body) + "\n"@
        + msg);
    let c2 = add_user_spec(c1, msg, bodies);
    assert(c2.messages.last().parts =~= seq![
        PartView::Markdown(context_envelope(x, body) + "\n"@ + msg),
    ]);
    assert(c2.seen.contains(x)) by {
        assert(c2.seen[0] == x);
    }
}

// ---------------------------------------------------------------------------
// Executable helpers
// ---------------------------------------------------------------------------

/// Whether the reference `x` is present in `v`.
fn contains_context(v: &Vec<WorkspaceContext>, x: &WorkspaceContext) -> (r: bool)
    ensures
        r == context_views(v@).contains(x@),
{
    let mut i: usize = 0;
    while i < v.len()
        invariant
            0 <= i <= v.len(),
            forall|j: int| 0 <= j < i ==> context_views(v@)[j] != x@,
        decreases v.len() - i,
    {
        if v[i].eq(x) {
            assert(context_views(v@)[i as int] == x@);
            return true;
        }
        i = i + 1;
    }
    false
}

/// `v` with every occurrence of `x` removed, order kept.
fn vec_remove_context(v: &Vec<WorkspaceContext>, x: &WorkspaceContext) -> (r: Vec<
    WorkspaceContext,
>)
    ensures
        context_views(r@) == remove_context_from(context_views(v@), x@),
{
    let ghost vs = context_views(v@);
    let mut r: Vec<WorkspaceContext> = Vec::new();
    let mut i: usize = 0;
    proof {
        assert(context_views(r@) =~= remove_context_from(vs.take(0), x@));
    }
    while i < v.len()
        invariant
            0 <= i <= v.len(),
            vs == context_views(v@),
            context_views(r@) == remove_context_from(vs.take(i as int), x@),
        decreases v.len() - i,
    {
        let ghost prev = context_views(r@);
        if !v[i].eq(x) {
            r.push(v[i].clone());
            proof {
                assert(context_views(r@) =~= prev.push(vs[i as int]));
            }
        }
        proof {
            assert(vs.take(i as int + 1).drop_last() =~= vs.take(i as int));
            assert(vs.take(i as int + 1).last() == vs[i as int]);
            if vs[i as int] == x@ {
                assert(context_views(r@) =~= remove_context_from(vs.take(i as int + 1), x@));
            } else {
                assert(context_views(r@) =~= remove_context_from(vs.take(i as int + 1), x@));
            }
        }
        i = i + 1;
    }
    proof {
        assert(vs.take(vs.len() as int) =~= vs);
    }
    r
}

/// Everything removal keeps was already there, and removal introduces no
/// duplicates.
proof fn lemma_remove_context_props(s: Seq<ContextView>, x: ContextView)
    ensures
        forall|y: ContextView|
            #[trigger] remove_context_from(s, x).contains(y) ==> s.contains(y),
        s.no_duplicates() ==> remove_context_from(s, x).no_duplicates(),
    decreases s.len(),
{
    if s.len() == 0 {
    } else {
        lemma_remove_context_props(s.drop_last(), x);
        let r = remove_context_from(s, x);
        let rd = remove_context_from(s.drop_last(), x);
        assert forall|y: ContextView| #[trigger] r.contains(y) implies s.contains(y) by {
            if s.last() != x && y == s.last() {
                assert(s.contains(y)) by {
                    assert(s[s.len() - 1] == y);
                }
            } else {
                let i = choose|i: int| 0 <= i < r.len() && r[i] == y;
                if i < rd.len() {
                    assert(rd.contains(y));
                    assert(s.drop_last().contains(y));
                    let j = choose|j: int| 0 <= j < s.drop_last().len() && s.drop_last()[j] == y;
                    assert(s[j] == y);
                } else {
                    assert(y == s.last());
                }
            }
        }
        if s.no_duplicates() {
            assert(s.drop_last().no_duplicates()) by {
                assert forall|i: int, j: int|
                    0 <= i < s.drop_last().len() && 0 <= j < s.drop_last().len() && i != j implies s.drop_last()[i]
                    != s.drop_last()[j] by {
                    assert(s[i] == s.drop_last()[i]);
                    assert(s[j] == s.drop_last()[j]);
                }
            }
            if s.last() != x {
                assert(!rd.contains(s.last())) by {
                    if rd.contains(s.last()) {
                        assert(s.drop_last().contains(s.last()));
                        let j = choose|j: int|
                            0 <= j < s.drop_last().len() && s.drop_last()[j] == s.last();
                        assert(s[j] == s[s.len() - 1]);
                    }
                }
                assert(r =~= rd.push(s.last()));
                assert forall|i: int, j: int|
                    0 <= i < r.len() && 0 <= j < r.len() && i != j implies r[i] != r[j] by {
                    if i < rd.len() && j < rd.len() {
                    } else if i < rd.len() {
                        assert(r[j] == s.last());
                        if r[i] == s.last() {
                            assert(rd.contains(s.last())) by {
                                assert(rd[i] == s.last());
                            }
                        }
                    } else {
                        assert(r[i] == s.last());
                        if r[j] == s.last() {
                            assert(rd.contains(s.last())) by {
                                assert(rd[j] == s.last());
                            }
                        }
                    }
                }
            } else {
                assert(r =~= rd);
            }
        }
    }
}

/// The first occurrence of each reference, in order.
pub open spec fn dedup_first(s: Seq<ContextView>) -> Seq<ContextView>
    decreases s.len(),
{
    if s.len() == 0 {
        s
    } else {
        let d = dedup_first(s.drop_last());
        if d.contains(s.last()) {
            d
        } else {
            d.push(s.last())
        }
    }
}

/// The pending references a repair keeps: first occurrences, in order,
/// minus those already delivered.
pub open spec fn repaired_unseen(
    unseen: Seq<ContextView>,
    seen: Seq<ContextView>,
) -> Seq<ContextView>
    decreases unseen.len(),
{
    if unseen.len() == 0 {
        unseen
    } else {
        let d = repaired_unseen(unseen.drop_last(), seen);
        if seen.contains(unseen.last()) || d.contains(unseen.last()) {
            d
        } else {
            d.push(unseen.last())
        }
    }
}

/// A concatenation of two duplicate-free sequences with no common member
/// is itself duplicate-free.
proof fn lemma_disjoint_concat_no_duplicates(a: Seq<ContextView>, b: Seq<ContextView>)
    requires
        a.no_duplicates(),
        b.no_duplicates(),
        forall|x: ContextView| !(#[trigger] a.contains(x) && b.contains(x)),
    ensures
        (a + b).no_duplicates(),
{
    assert forall|p: int, q: int|
        0 <= p < (a + b).len() && 0 <= q < (a + b).len() && p != q implies (a + b)[p] != (a
        + b)[q] by {
        if p < a.len() && q < a.len() {
        } else if p >= a.len() && q >= a.len() {
            assert((a + b)[p] == b[p - a.len()]);
            assert((a + b)[q] == b[q - a.len()]);
        } else if p < a.len() {
            if (a + b)[p] == (a + b)[q] {
                assert(a.contains((a + b)[p]) && b.contains((a + b)[p])) by {
                    assert(a[p] == (a + b)[p]);
                    assert(b[q - a.len()] == (a + b)[p]);
                }
            }
        } else {
            if (a + b)[p] == (a + b)[q] {
                assert(a.contains((a + b)[p]) && b.contains((a + b)[p])) by {
                    assert(a[q] == (a + b)[p]);
                    assert(b[p - a.len()] == (a + b)[p]);
                }
            }
        }
    }
}

/// Membership after a push is membership before, or equality with the
/// pushed element.
proof fn lemma_push_contains(s: Seq<ContextView>, y: ContextView, x: ContextView)
    ensures
        s.push(y).contains(x) <==> (s.contains(x) || x == y),
{
    if s.contains(x) {
        let p = choose|p: int| 0 <= p < s.len() && s[p] == x;
        assert(s.push(y)[p] == x);
    }
    if x == y {
        assert(s.push(y)[s.len() as int] == x);
    }
    if s.push(y).contains(x) {
        let p = choose|p: int| 0 <= p < s.push(y).len() && #[trigger] s.push(y)[p] == x;
        if p < s.len() {
            assert(s[p] == x);
        }
    }
}

/// Membership in a one-longer prefix is membership in the shorter one or
/// equality with the newly exposed element.
proof fn lemma_take_contains_step(s: Seq<ContextView>, i: int, x: ContextView)
    requires
        0 <= i < s.len(),
    ensures
        s.take(i + 1).contains(x) <==> (s.take(i).contains(x) || x == s[i]),
{
    assert(s.take(i + 1) =~= s.take(i).push(s[i]));
    if s.take(i).contains(x) {
        let p = choose|p: int| 0 <= p < s.take(i).len() && s.take(i)[p] == x;
        assert(s.take(i + 1)[p] == x);
    }
    if x == s[i] {
        assert(s.take(i + 1)[i] == x);
    }
    if s.take(i + 1).contains(x) {
        let p = choose|p: int| 0 <= p < s.take(i + 1).len() && #[trigger] s.take(i + 1)[p] == x;
        if p < i {
            assert(s.take(i)[p] == x);
        }
    }
}

// ---------------------------------------------------------------------------
// Conversation operations
// ---------------------------------------------------------------------------

/// Relies on chrono's `Utc::now` and `DateTime::to_rfc3339` for the current
/// wall-clock instant as text; nothing is promised of its value.  `Utc::now`
/// aborts the process when the system clock reads before the Unix epoch, an
/// environmental abort this wrapper inherits; `to_rfc3339` cannot fail.
#[verifier::external_body]
fn now_rfc3339() -> String {
    chrono::Utc::now().to_rfc3339()
}

/// What a fresh conversation identifier looks like: the descriptor, a dash,
/// and a timestamp whose value only the clock decides.
pub open spec fn is_created_id(id: Seq<char>, descriptor: Seq<char>) -> bool {
    &&& id.len() > descriptor.len()
    &&& id.subrange(0, descriptor.len() as int) == descriptor
    &&& id[descriptor.len() as int] == '-'
}

impl Conversation {
    /// The context-set invariant of this conversation.
    pub open spec fn wf(self) -> bool {
        wf_contexts(self@)
    }

    /// A fresh identifier: the human descriptor, a dash, and the creation
    /// instant, for uniqueness and rough chronological order.
    pub fn create_id(descriptor: String) -> (r: String)
        ensures
            is_created_id(r@, descriptor@),
    {
        let ghost d = descriptor@;
        let mut r = descriptor;
        r.append("-");
        let stamp = now_rfc3339();
        r.append(stamp.as_str());
        proof {
            reveal_strlit("-");
            assert(r@.subrange(0, d.len() as int) =~= d);
            assert(r@[d.len() as int] == '-');
        }
        r
    }

    /// A conversation with no turns and no context.
    pub fn empty(id: &str) -> (r: Conversation)
        ensures
            r@.id == id@,
            r@.unseen == Seq::<ContextView>::empty(),
            r@.seen == Seq::<ContextView>::empty(),
            r@.messages == Seq::<RichMessageView>::empty(),
            r.wf(),
    {
        let r = Conversation {
            id: id.to_owned(),
            unseen_context: Vec::new(),
            seen_context: Vec::new(),
            messages: Vec::new(),
        };
        proof {
            assert(r@.unseen =~= Seq::<ContextView>::empty());
            assert(r@.seen =~= Seq::<ContextView>::empty());
            assert(r@.messages =~= Seq::<RichMessageView>::empty());
        }
        r
    }

    /// Parses each raw reference and inserts it into `unseen` unless it is
    /// already known; adding is idempotent and never fails.
    pub fn add_workspace_contexts(&mut self, raw_contexts: Vec<String>) -> (r: Result<
        (),
        CoreError,
    >)
        requires
            old(self).wf(),
        ensures
            r is Ok,
            final(self)@ == add_contexts_spec(old(self)@, string_views(raw_contexts@)),
            final(self).wf(),
    {
        let ghost raws = string_views(raw_contexts@);
        let mut i: usize = 0;
        proof {
            assert(raws.take(0) =~= Seq::<Seq<char>>::empty());
        }
        while i < raw_contexts.len()
            invariant
                0 <= i <= raw_contexts.len(),
                raws == string_views(raw_contexts@),
                self@ == add_contexts_spec(old(self)@, raws.take(i as int)),
                wf_contexts(self@),
            decreases raw_contexts.len() - i,
        {
            let ghost prev = self@;
            let raw = raw_contexts[i].clone();
            let ctx = WorkspaceContext::from(raw);
            let in_seen = contains_context(&self.seen_context, &ctx);
            let in_unseen = contains_context(&self.unseen_context, &ctx);
            if !in_seen && !in_unseen {
                self.unseen_context.push(ctx);
                proof {
                    assert(self@.unseen =~= prev.unseen.push(context_of(raws[i as int])));
                    assert(self@ == add_one_context_spec(prev, raws[i as int]));
                    // the pushed reference was in neither set, so both
                    // distinctness and disjointness are preserved
                    assert(self@.unseen.no_duplicates()) by {
                        assert forall|p: int, q: int|
                            0 <= p < self@.unseen.len() && 0 <= q < self@.unseen.len() && p
                            != q implies self@.unseen[p] != self@.unseen[q] by {
                            if p < prev.unseen.len() && q < prev.unseen.len() {
                            } else if p < prev.unseen.len() {
                                if self@.unseen[p] == self@.unseen[q] {
                                    assert(prev.unseen.contains(self@.unseen[q])) by {
                                        assert(prev.unseen[p] == self@.unseen[q]);
                                    }
                                }
                            } else {
                                if self@.unseen[p] == self@.unseen[q] {
                                    assert(prev.unseen.contains(self@.unseen[p])) by {
                                        assert(prev.unseen[q] == self@.unseen[p]);
                                    }
                                }
                            }
                        }
                    }
                    assert forall|x: ContextView|
                        !(#[trigger] self@.unseen.contains(x) && self@.seen.contains(x)) by {
                        if self@.unseen.contains(x) && self@.seen.contains(x) {
                            let p = choose|p: int|
                                0 <= p < self@.unseen.len() && self@.unseen[p] == x;
                            if p < prev.unseen.len() {
                                assert(prev.unseen.contains(x));
                            } else {
                                assert(x == context_of(raws[i as int]));
                            }
                        }
                    }
                }
            } else {
                proof {
                    assert(self@ == add_one_context_spec(prev, raws[i as int]));
                }
            }
            proof {
                assert(raws.take(i as int + 1).drop_last() =~= raws.take(i as int));
                assert(raws.take(i as int + 1).last() == raws[i as int]);
            }
            i = i + 1;
        }
        proof {
            assert(raws.take(raws.len() as int) =~= raws);
        }
        Ok(())
    }

    /// Deletes each raw reference from whichever set holds it; removing an
    /// unknown reference is a no-op.
    pub fn remove_workspace_contexts(&mut self, raw_contexts: &Vec<String>) -> (r: Result<
        (),
        CoreError,
    >)
        requires
            old(self).wf(),
        ensures
            r is Ok,
            final(self)@ == remove_contexts_spec(old(self)@, string_views(raw_contexts@)),
            final(self).wf(),
    {
        let ghost raws = string_views(raw_contexts@);
        let mut i: usize = 0;
        proof {
            assert(raws.take(0) =~= Seq::<Seq<char>>::empty());
        }
        while i < raw_contexts.len()
            invariant
                0 <= i <= raw_contexts.len(),
                raws == string_views(raw_contexts@),
                self@ == remove_contexts_spec(old(self)@, raws.take(i as int)),
                wf_contexts(self@),
            decreases raw_contexts.len() - i,
        {
            let ghost prev = self@;
            let raw = raw_contexts[i].clone();
            let ctx = WorkspaceContext::from(raw);
            self.unseen_context = vec_remove_context(&self.unseen_context, &ctx);
            self.seen_context = vec_remove_context(&self.seen_context, &ctx);
            proof {
                assert(self@ == remove_one_context_spec(prev, raws[i as int]));
                lemma_remove_context_props(prev.unseen, ctx@);
                lemma_remove_context_props(prev.seen, ctx@);
                assert forall|x: ContextView|
                    !(#[trigger] self@.unseen.contains(x) && self@.seen.contains(x)) by {
                    if self@.unseen.contains(x) && self@.seen.contains(x) {
                        assert(prev.unseen.contains(x) && prev.seen.contains(x));
                    }
                }
                assert(raws.take(i as int + 1).drop_last() =~= raws.take(i as int));
                assert(raws.take(i as int + 1).last() == raws[i as int]);
            }
            i = i + 1;
        }
        proof {
            assert(raws.take(raws.len() as int) =~= raws);
        }
        Ok(())
    }

    /// Empties the turn history and makes all known context pending again;
    /// never fails.
    pub fn clear(&mut self) -> (r: Result<(), CoreError>)
        requires
            old(self).wf(),
        ensures
            r is Ok,
            final(self)@ == clear_spec(old(self)@),
            final(self).wf(),
    {
        let ghost prev = self@;
        self.messages.clear();
        self.unseen_context.append(&mut self.seen_context);
        proof {
            assert(self@.unseen =~= prev.unseen + prev.seen);
            assert(self@.seen =~= Seq::<ContextView>::empty());
            assert(self@.messages =~= Seq::<RichMessageView>::empty());
            assert(self@ == clear_spec(prev));
            // a disjoint union of duplicate-free sequences is duplicate-free
            lemma_disjoint_concat_no_duplicates(prev.unseen, prev.seen);
        }
        Ok(())
    }

    /// Re-establishes the context-set invariant on a conversation whose
    /// sets came from outside, such as a loaded file: duplicates are
    /// dropped, and a reference present in both sets stays only in `seen`,
    /// since it was delivered at least once.  First occurrences keep their
    /// order; the turn history is untouched.
    pub fn repair_contexts(&mut self)
        ensures
            final(self).wf(),
            final(self)@.id == old(self)@.id,
            final(self)@.messages == old(self)@.messages,
            final(self)@.seen == dedup_first(old(self)@.seen),
            final(self)@.unseen == repaired_unseen(old(self)@.unseen, old(self)@.seen),
            forall|x: ContextView|
                #[trigger] final(self)@.seen.contains(x) <==> old(self)@.seen.contains(x),
            forall|x: ContextView|
                #[trigger] final(self)@.unseen.contains(x) <==> (old(self)@.unseen.contains(x)
                    && !old(self)@.seen.contains(x)),
    {
        let ghost prev = self@;
        let mut new_seen: Vec<WorkspaceContext> = Vec::new();
        let mut i: usize = 0;
        proof {
            assert(prev.seen.take(0) =~= Seq::<ContextView>::empty());
            assert(context_views(new_seen@) =~= dedup_first(prev.seen.take(0)));
        }
        while i < self.seen_context.len()
            invariant
                0 <= i <= self.seen_context@.len(),
                prev == self@,
                context_views(new_seen@).no_duplicates(),
                context_views(new_seen@) == dedup_first(prev.seen.take(i as int)),
                forall|x: ContextView|
                    #[trigger] context_views(new_seen@).contains(x) <==> prev.seen.take(
                        i as int,
                    ).contains(x),
            decreases self.seen_context@.len() - i,
        {
            let ghost before = context_views(new_seen@);
            let ghost elem = prev.seen[i as int];
            if !contains_context(&new_seen, &self.seen_context[i]) {
                new_seen.push(self.seen_context[i].clone());
                proof {
                    assert(context_views(new_seen@) =~= before.push(prev.seen[i as int]));
                    assert forall|p: int, q: int|
                        0 <= p < context_views(new_seen@).len() && 0 <= q < context_views(
                            new_seen@,
                        ).len() && p != q implies context_views(new_seen@)[p] != context_views(
                        new_seen@,
                    )[q] by {
                        if p < before.len() && q < before.len() {
                        } else if p < before.len() {
                            if context_views(new_seen@)[p] == context_views(new_seen@)[q] {
                                assert(before.contains(prev.seen[i as int])) by {
                                    assert(before[p] == prev.seen[i as int]);
                                }
                            }
                        } else if q < before.len() {
                            if context_views(new_seen@)[p] == context_views(new_seen@)[q] {
                                assert(before.contains(prev.seen[i as int])) by {
                                    assert(before[q] == prev.seen[i as int]);
                                }
                            }
                        }
                    }
                }
            }
            proof {
                assert(prev.seen.take(i as int + 1).drop_last() =~= prev.seen.take(i as int));
                assert(prev.seen.take(i as int + 1).last() == elem);
                assert(context_views(new_seen@) == dedup_first(prev.seen.take(i as int + 1)));
                assert forall|x: ContextView|
                    #[trigger] context_views(new_seen@).contains(x) <==> prev.seen.take(
                        i as int + 1,
                    ).contains(x) by {
                    lemma_take_contains_step(prev.seen, i as int, x);
                    lemma_push_contains(before, elem, x);
                }
            }
            i = i + 1;
        }
        proof {
            assert(prev.seen.take(prev.seen.len() as int) =~= prev.seen);
        }
        let mut new_unseen: Vec<WorkspaceContext> = Vec::new();
        let mut j: usize = 0;
        proof {
            assert(prev.unseen.take(0) =~= Seq::<ContextView>::empty());
            assert(context_views(new_unseen@) =~= repaired_unseen(prev.unseen.take(0), prev.seen));
        }
        while j < self.unseen_context.len()
            invariant
                0 <= j <= self.unseen_context@.len(),
                prev == self@,
                context_views(new_seen@).no_duplicates(),
                forall|x: ContextView|
                    #[trigger] context_views(new_seen@).contains(x) <==> prev.seen.contains(x),
                context_views(new_unseen@).no_duplicates(),
                context_views(new_unseen@) == repaired_unseen(
                    prev.unseen.take(j as int),
                    prev.seen,
                ),
                forall|x: ContextView|
                    !(#[trigger] context_views(new_unseen@).contains(x) && context_views(
                        new_seen@,
                    ).contains(x)),
                forall|x: ContextView|
                    #[trigger] context_views(new_unseen@).contains(x) <==> (prev.unseen.take(
                        j as int,
                    ).contains(x) && !prev.seen.contains(x)),
            decreases self.unseen_context@.len() - j,
        {
            let ghost before = context_views(new_unseen@);
            let ghost elem = prev.unseen[j as int];
            if !contains_context(&new_seen, &self.unseen_context[j]) && !contains_context(
                &new_unseen,
                &self.unseen_context[j],
            ) {
                new_unseen.push(self.unseen_context[j].clone());
                proof {
                    assert(context_views(new_unseen@) =~= before.push(prev.unseen[j as int]));
                    assert forall|p: int, q: int|
                        0 <= p < context_views(new_unseen@).len() && 0 <= q < context_views(
                            new_unseen@,
                        ).len() && p != q implies context_views(new_unseen@)[p] != context_views(
                        new_unseen@,
                    )[q] by {
                        if p < before.len() && q < before.len() {
                        } else if p < before.len() {
                            if context_views(new_unseen@)[p] == context_views(new_unseen@)[q] {
                                assert(before.contains(prev.unseen[j as int])) by {
                                    assert(before[p] == prev.unseen[j as int]);
                                }
                            }
                        } else if q < before.len() {
                            if context_views(new_unseen@)[p] == context_views(new_unseen@)[q] {
                                assert(before.contains(prev.unseen[j as int])) by {
                                    assert(before[q] == prev.unseen[j as int]);
                                }
                            }
                        }
                    }
                }
            }
            proof {
                assert(prev.unseen.take(j as int + 1).drop_last() =~= prev.unseen.take(j as int));
                assert(prev.unseen.take(j as int + 1).last() == elem);
                assert(context_views(new_unseen@) == repaired_unseen(
                    prev.unseen.take(j as int + 1),
                    prev.seen,
                ));
                assert forall|x: ContextView|
                    #[trigger] context_views(new_unseen@).contains(x) <==> (prev.unseen.take(
                        j as int + 1,
                    ).contains(x) && !prev.seen.contains(x)) by {
                    lemma_take_contains_step(prev.unseen, j as int, x);
                    lemma_push_contains(before, elem, x);
                }
            }
            j = j + 1;
        }
        proof {
            assert(prev.unseen.take(prev.unseen.len() as int) =~= prev.unseen);
        }
        self.seen_context = new_seen;
        self.unseen_context = new_unseen;
    }

    /// The references pending delivery, in order: the caller fetches each
    /// body and hands the results to `add_user_message`.
    pub fn pending_contexts(&self) -> (r: &Vec<WorkspaceContext>)
        ensures
            context_views(r@) == self@.unseen,
    {
        &self.unseen_context
    }

    fn user_message(&self, content: String) -> (r: RichMessage)
        ensures
            r@.role == user_role_text(),
            r@.parts == seq![PartView::Markdown(content@)],
    {
        let mut parts: Vec<MessageParts> = Vec::new();
        parts.push(MessageParts::Markdown(content));
        let r = RichMessage { role: String::from_str("user"), parts };
        proof {
            assert(r@.parts =~= seq![PartView::Markdown(content@)]);
        }
        r
    }

    /// Records a user turn.  `context_bodies` holds the fetched body of each
    /// pending reference, in the order of `pending_contexts`; every pending
    /// reference is wrapped in its source-tagged envelope ahead of the
    /// literal input, and moves to `seen`.  The caller resolves the fetches
    /// first, so a failed fetch leaves the conversation untouched.
    pub fn add_user_message(&mut self, message: String, context_bodies: Vec<String>) -> (r: Result<
        (),
        CoreError,
    >)
        requires
            old(self).wf(),
            context_bodies@.len() == old(self)@.unseen.len(),
        ensures
            r is Ok,
            final(self)@ == add_user_spec(old(self)@, message@, string_views(context_bodies@)),
            final(self).wf(),
    {
        let ghost prev = self@;
        let ghost bodies = string_views(context_bodies@);
        let mut user_message = String::new();
        let mut i: usize = 0;
        proof {
            assert(user_message@ =~= resolved_prefix(prev.unseen, bodies, 0));
        }
        while i < self.unseen_context.len()
            invariant
                0 <= i <= self.unseen_context.len(),
                *self == *old(self),
                prev == self@,
                bodies == string_views(context_bodies@),
                bodies.len() == prev.unseen.len(),
                user_message@ == resolved_prefix(prev.unseen, bodies, i as int),
            decreases self.unseen_context.len() - i,
        {
            user_message.append("<ClaippyContext src=\"");
            user_message.append(self.unseen_context[i].text().as_str());
            user_message.append("\">");
            user_message.append(context_bodies[i].as_str());
            user_message.append("</ClaippyContext>");
            user_message.append("\n");
            proof {
                assert(user_message@ =~= resolved_prefix(prev.unseen, bodies, i as int + 1));
            }
            i = i + 1;
        }
        user_message.append(message.as_str());
        let turn = self.user_message(user_message);
        self.messages.push(turn);
        self.seen_context.append(&mut self.unseen_context);
        proof {
            assert(self@.seen =~= prev.seen + prev.unseen);
            assert(self@.unseen =~= Seq::<ContextView>::empty());
            assert(self@.messages =~= add_user_spec(prev, message@, bodies).messages);
            assert(self@ == add_user_spec(prev, message@, bodies));
            // a disjoint union of duplicate-free sequences is duplicate-free
            assert forall|x: ContextView|
                !(#[trigger] prev.seen.contains(x) && prev.unseen.contains(x)) by {
                if prev.seen.contains(x) && prev.unseen.contains(x) {
                    assert(prev.unseen.contains(x) && prev.seen.contains(x));
                }
            }
            lemma_disjoint_concat_no_duplicates(prev.seen, prev.unseen);
        }
        Ok(())
    }

    /// Appends an assistant turn verbatim from the segmenter's output; never
    /// fails.
    pub fn add_assistant_message(&mut self, message: Vec<MessageParts>)
        requires
            old(self).wf(),
        ensures
            final(self)@ == add_assistant_spec(old(self)@, part_views(message@)),
            final(self).wf(),
    {
        let ghost prev = self@;
        let turn = RichMessage { role: String::from_str("assistant"), parts: message };
        self.messages.push(turn);
        proof {
            assert(self@.messages =~= add_assistant_spec(prev, part_views(message@)).messages);
            assert(self@ == add_assistant_spec(prev, part_views(message@)));
        }
    }

    /// Ends a model response: whatever the segmenter finalized is recorded
    /// as an assistant turn even when the stream failed mid-response, and
    /// only then is the transport error surfaced.
    pub fn complete_assistant_turn(&mut self, seg: Segmenter, stream_error: Option<String>) -> (r:
        Result<(), CoreError>)
        requires
            old(self).wf(),
            seg.wf(),
        ensures
            final(self)@ == add_assistant_spec(old(self)@, seg_spec(seg.consumed())),
            final(self).wf(),
            match stream_error {
                None => r is Ok,
                Some(m) => r matches Err(CoreError::TransportError(e)) && e == m,
            },
    {
        let parts = seg.finish();
        self.add_assistant_message(parts);
        match stream_error {
            None => Ok(()),
            Some(m) => Err(CoreError::TransportError(m)),
        }
    }

    /// The flattened message list transmitted to the model: each turn's
    /// segments re-encoded into one literal string, paired with its role.
    pub fn as_messages(&self) -> (r: Vec<Message>)
        ensures
            r@.len() == self@.messages.len(),
            forall|i: int| 0 <= i < r@.len() ==> r@[i]@ == flat_message(self@.messages[i]),
    {
        let mut r: Vec<Message> = Vec::new();
        let mut i: usize = 0;
        while i < self.messages.len()
            invariant
                0 <= i <= self.messages.len(),
                r@.len() == i,
                forall|j: int| 0 <= j < i ==> r@[j]@ == flat_message(self@.messages[j]),
            decreases self.messages.len() - i,
        {
            r.push(self.messages[i].as_message());
            i = i + 1;
        }
        r
    }
}

} // verus!
