//! Sequence diagram parsing.
//!
//! After the header line, each line is one of: a participant or actor
//! declaration; a block opener (`loop`, `alt`, `opt`, `par`), an `else` or
//! `and` separator, or `end`; `activate` or `deactivate`; a note; a
//! message `A->>B: text`. Participants are also declared by their first
//! mention. Statements go into the innermost open block.
use vstd::prelude::*;
use crate::markdown::mermaid::timeline::{percent2, strings_view};
use crate::text::{
    after_first, chars_of, decimal, decimal_spec, extend_chars, find, find_after, find_char,
    find_from, find_spec, lines, lines_spec, split_char, split_char_spec, split_whitespace,
    split_whitespace_spec, starts_with, starts_with_ci, starts_with_ci_spec, starts_with_spec,
    string_of, trim, trim_spec, views_of, lemma_find_from_bounds, matches_at,
};

verus! {

// ──────────────────────────────── data types ─────────────────────────────────

/// A participant in a sequence diagram.
#[derive(Debug, Clone)]
pub struct Participant {
    pub id: String,
    pub label: String,
    pub is_actor: bool,
}

/// Type of message arrow in sequence diagram.
#[derive(Debug, Clone, Copy, PartialEq, Eq, Structural)]
pub enum MessageType {
    /// `->>`
    Solid,
    /// `->`
    SolidOpen,
    /// `-->>`
    Dotted,
    /// `-->`
    DottedOpen,
}

impl Default for MessageType {
    fn default() -> (r: Self)
        ensures
            r == MessageType::Solid,
    {
        MessageType::Solid
    }
}

/// A message between participants.
#[derive(Debug, Clone)]
pub struct Message {
    pub from: String,
    pub to: String,
    pub label: String,
    pub message_type: MessageType,
    /// Activate the target participant when this message is sent
    pub activate_target: bool,
    /// Deactivate the target participant when this message is sent
    pub deactivate_target: bool,
}

/// Position for a note in a sequence diagram.
#[derive(Debug, Clone)]
pub enum NotePosition {
    LeftOf(String),
    RightOf(String),
    Over(Vec<String>),
}

/// A note in a sequence diagram.
#[derive(Debug, Clone)]
pub struct SeqNote {
    pub position: NotePosition,
    pub text: String,
}

/// Type of control-flow block in sequence diagram.
#[derive(Debug, Clone, Copy, PartialEq, Eq, Structural)]
pub enum SeqBlockKind {
    Loop,
    Alt,
    Opt,
    Par,
}

/// A segment within a control-flow block (e.g., alt branches, par branches).
#[derive(Debug)]
pub struct SeqBlockSegment {
    pub segment_label: Option<String>,
    pub statements: Vec<SeqStatement>,
}

/// A control-flow block in a sequence diagram (loop, alt, opt, par).
#[derive(Debug)]
pub struct SeqBlock {
    pub kind: SeqBlockKind,
    pub label: String,
    pub segments: Vec<SeqBlockSegment>,
}

/// A statement in a sequence diagram - message, block, note, or activation directive.
#[derive(Debug)]
pub enum SeqStatement {
    Message(Message),
    Block(SeqBlock),
    Note(SeqNote),
    Activate(String),
    Deactivate(String),
}

/// A parsed sequence diagram.
#[derive(Debug)]
pub struct SequenceDiagram {
    pub participants: Vec<Participant>,
    pub statements: Vec<SeqStatement>,
}

impl Default for SequenceDiagram {
    fn default() -> (r: Self)
        ensures
            r.participants@.len() == 0,
            r.statements@.len() == 0,
    {
        SequenceDiagram { participants: Vec::new(), statements: Vec::new() }
    }
}

// ─────────────────────────────── plain values ────────────────────────────────

/// A participant as plain values: id, label, whether it is an actor.
pub open spec fn participant_view(p: Participant) -> (Seq<char>, Seq<char>, bool) {
    (p.id@, p.label@, p.is_actor)
}

/// Participants as plain values.
pub open spec fn participants_view(v: Seq<Participant>) -> Seq<(Seq<char>, Seq<char>, bool)> {
    v.map_values(|p: Participant| participant_view(p))
}

/// A message as plain values.
pub struct MessageV {
    pub from: Seq<char>,
    pub to: Seq<char>,
    pub label: Seq<char>,
    pub message_type: MessageType,
    pub activate_target: bool,
    pub deactivate_target: bool,
}

pub open spec fn message_view(m: Message) -> MessageV {
    MessageV {
        from: m.from@,
        to: m.to@,
        label: m.label@,
        message_type: m.message_type,
        activate_target: m.activate_target,
        deactivate_target: m.deactivate_target,
    }
}

/// A note position as plain values.
pub enum NotePosV {
    LeftOf(Seq<char>),
    RightOf(Seq<char>),
    Over(Seq<Seq<char>>),
}

pub open spec fn note_pos_view(p: NotePosition) -> NotePosV {
    match p {
        NotePosition::LeftOf(s) => NotePosV::LeftOf(s@),
        NotePosition::RightOf(s) => NotePosV::RightOf(s@),
        NotePosition::Over(v) => NotePosV::Over(strings_view(v@)),
    }
}

/// A note as plain values.
pub open spec fn note_view(n: SeqNote) -> (NotePosV, Seq<char>) {
    (note_pos_view(n.position), n.text@)
}

/// A statement as plain values.
pub enum StmtV {
    Message(MessageV),
    Block(BlockV),
    Note((NotePosV, Seq<char>)),
    Activate(Seq<char>),
    Deactivate(Seq<char>),
}

/// A block as plain values.
pub struct BlockV {
    pub kind: SeqBlockKind,
    pub label: Seq<char>,
    pub segments: Seq<SegmentV>,
}

/// A block segment as plain values.
pub struct SegmentV {
    pub label: Option<Seq<char>>,
    pub statements: Seq<StmtV>,
}

pub open spec fn opt_view(s: Option<String>) -> Option<Seq<char>> {
    match s {
        Some(t) => Some(t@),
        None => None,
    }
}

/// `s` is the statement `v`.
pub open spec fn stmt_is(s: SeqStatement, v: StmtV) -> bool
    decreases s, 2nat,
{
    match s {
        SeqStatement::Message(m) => v == StmtV::Message(message_view(m)),
        SeqStatement::Note(n) => v == StmtV::Note(note_view(n)),
        SeqStatement::Activate(id) => v == StmtV::Activate(id@),
        SeqStatement::Deactivate(id) => v == StmtV::Deactivate(id@),
        SeqStatement::Block(b) => match v {
            StmtV::Block(bv) => block_is(b, bv),
            _ => false,
        },
    }
}

/// `b` is the block `v`.
pub open spec fn block_is(b: SeqBlock, v: BlockV) -> bool
    decreases b, 1nat,
{
    &&& b.kind == v.kind
    &&& b.label@ == v.label
    &&& b.segments@.len() == v.segments.len()
    &&& forall|k: int|
        0 <= k < b.segments@.len() ==> {
            &&& decreases_to!(b => b.segments@[k])
            &&& segment_is(#[trigger] b.segments@[k], v.segments[k])
        }
}

/// `g` is the segment `v`.
pub open spec fn segment_is(g: SeqBlockSegment, v: SegmentV) -> bool
    decreases g, 0nat,
{
    &&& opt_view(g.segment_label) == v.label
    &&& g.statements@.len() == v.statements.len()
    &&& forall|k: int|
        0 <= k < g.statements@.len() ==> {
            &&& decreases_to!(g => g.statements@[k])
            &&& stmt_is(#[trigger] g.statements@[k], v.statements[k])
        }
}

/// The statements `s` are the statements `v`.
pub open spec fn stmts_are(s: Seq<SeqStatement>, v: Seq<StmtV>) -> bool {
    &&& s.len() == v.len()
    &&& forall|k: int| 0 <= k < s.len() ==> stmt_is(#[trigger] s[k], v[k])
}

// ─────────────────────────────── block builder ───────────────────────────────

/// A block being built: its finished segments and the open one.
pub struct BuilderV {
    pub kind: SeqBlockKind,
    pub label: Seq<char>,
    pub segments: Seq<SegmentV>,
    pub current_label: Option<Seq<char>>,
    pub current: Seq<StmtV>,
}

/// Helper for building control-flow blocks during parsing.
pub struct SeqBlockBuilder {
    kind: SeqBlockKind,
    label: String,
    segments: Vec<SeqBlockSegment>,
    current_segment_label: Option<String>,
    current_segment_statements: Vec<SeqStatement>,
}

/// `b` is the block being built `v`.
pub closed spec fn builder_is(b: SeqBlockBuilder, v: BuilderV) -> bool {
    &&& b.kind == v.kind
    &&& b.label@ == v.label
    &&& b.segments@.len() == v.segments.len()
    &&& (forall|k: int| 0 <= k < b.segments@.len() ==> segment_is(#[trigger] b.segments@[k], v.segments[k]))
    &&& opt_view(b.current_segment_label) == v.current_label
    &&& stmts_are(b.current_segment_statements@, v.current)
}

/// A new segment starts: the open one is kept when it has statements or a
/// label, and the new one opens with `label`.
pub open spec fn new_segment_spec(b: BuilderV, label: Option<Seq<char>>) -> BuilderV {
    let segments = if b.current.len() > 0 || b.current_label is Some {
        b.segments.push(SegmentV { label: b.current_label, statements: b.current })
    } else {
        b.segments
    };
    BuilderV { segments, current_label: label, current: seq![], ..b }
}

/// The finished block: the open segment closes as its last segment.
pub open spec fn finalize_spec(b: BuilderV) -> BlockV {
    BlockV {
        kind: b.kind,
        label: b.label,
        segments: b.segments.push(SegmentV { label: b.current_label, statements: b.current }),
    }
}

impl SeqBlockKind {
    /// The block kind of an opening keyword.
    pub fn from_keyword(kw: &[char]) -> (r: Option<Self>)
        ensures
            r == kind_of_keyword(kw@),
    {
        let l: Vec<char> = vec!['l', 'o', 'o', 'p'];
        let a: Vec<char> = vec!['a', 'l', 't'];
        let o: Vec<char> = vec!['o', 'p', 't'];
        let p: Vec<char> = vec!['p', 'a', 'r'];
        assert(l@ =~= loop_word());
        assert(a@ =~= alt_word());
        assert(o@ =~= opt_word());
        assert(p@ =~= par_word());
        if crate::text::eq_chars(kw, l.as_slice()) {
            Some(SeqBlockKind::Loop)
        } else if crate::text::eq_chars(kw, a.as_slice()) {
            Some(SeqBlockKind::Alt)
        } else if crate::text::eq_chars(kw, o.as_slice()) {
            Some(SeqBlockKind::Opt)
        } else if crate::text::eq_chars(kw, p.as_slice()) {
            Some(SeqBlockKind::Par)
        } else {
            None
        }
    }

    /// The keyword of a block kind.
    pub fn display_name(&self) -> (r: &'static str)
        ensures
            r@ == kind_word(*self),
    {
        proof {
            reveal_strlit("loop");
            reveal_strlit("alt");
            reveal_strlit("opt");
            reveal_strlit("par");
        }
        match self {
            SeqBlockKind::Loop => "loop",
            SeqBlockKind::Alt => "alt",
            SeqBlockKind::Opt => "opt",
            SeqBlockKind::Par => "par",
        }
    }
}

pub open spec fn loop_word() -> Seq<char> {
    seq!['l', 'o', 'o', 'p']
}

pub open spec fn alt_word() -> Seq<char> {
    seq!['a', 'l', 't']
}

pub open spec fn opt_word() -> Seq<char> {
    seq!['o', 'p', 't']
}

pub open spec fn par_word() -> Seq<char> {
    seq!['p', 'a', 'r']
}

/// The keyword of a block kind.
pub open spec fn kind_word(k: SeqBlockKind) -> Seq<char> {
    match k {
        SeqBlockKind::Loop => loop_word(),
        SeqBlockKind::Alt => alt_word(),
        SeqBlockKind::Opt => opt_word(),
        SeqBlockKind::Par => par_word(),
    }
}

/// The block kind an opening keyword names.
pub open spec fn kind_of_keyword(w: Seq<char>) -> Option<SeqBlockKind> {
    if w == loop_word() {
        Some(SeqBlockKind::Loop)
    } else if w == alt_word() {
        Some(SeqBlockKind::Alt)
    } else if w == opt_word() {
        Some(SeqBlockKind::Opt)
    } else if w == par_word() {
        Some(SeqBlockKind::Par)
    } else {
        None
    }
}

impl SeqBlockBuilder {
    /// A builder for a block of `kind` with `label` and no statements.
    pub fn new(kind: SeqBlockKind, label: String) -> (r: Self)
        ensures
            builder_is(
                r,
                BuilderV { kind, label: label@, segments: seq![], current_label: None, current: seq![] },
            ),
    {
        SeqBlockBuilder {
            kind,
            label,
            segments: Vec::new(),
            current_segment_label: None,
            current_segment_statements: Vec::new(),
        }
    }

    /// Start a new segment with `label`.
    pub fn start_new_segment(&mut self, label: Option<String>, Ghost(v): Ghost<BuilderV>)
        requires
            builder_is(*old(self), v),
        ensures
            builder_is(*final(self), new_segment_spec(v, opt_view(label))),
    {
        if self.current_segment_statements.len() > 0 || self.current_segment_label.is_some() {
            let mut stmts: Vec<SeqStatement> = Vec::new();
            std::mem::swap(&mut stmts, &mut self.current_segment_statements);
            let seg_label = self.current_segment_label.take();
            let seg = SeqBlockSegment { segment_label: seg_label, statements: stmts };
            let ghost sv = SegmentV { label: v.current_label, statements: v.current };
            assert(segment_is(seg, sv)) by {
                assert forall|k: int| 0 <= k < seg.statements@.len() implies {
                    &&& decreases_to!(seg => seg.statements@[k])
                    &&& stmt_is(#[trigger] seg.statements@[k], sv.statements[k])
                } by {
                    assert(stmt_is(old(self).current_segment_statements@[k], v.current[k]));
                }
            }
            let ghost before = self.segments@;
            self.segments.push(seg);
            assert forall|k: int| 0 <= k < self.segments@.len() implies segment_is(
                #[trigger] self.segments@[k],
                v.segments.push(sv)[k],
            ) by {
                if k < before.len() {
                    assert(self.segments@[k] == before[k]);
                }
            }
        }
        self.current_segment_label = label;
        assert(stmts_are(self.current_segment_statements@, seq![]));
    }

    /// Add a statement to the open segment.
    pub fn add_statement(&mut self, stmt: SeqStatement, Ghost(v): Ghost<BuilderV>, Ghost(sv): Ghost<StmtV>)
        requires
            builder_is(*old(self), v),
            stmt_is(stmt, sv),
        ensures
            builder_is(*final(self), BuilderV { current: v.current.push(sv), ..v }),
    {
        let ghost before = self.current_segment_statements@;
        self.current_segment_statements.push(stmt);
        assert forall|k: int| 0 <= k < self.current_segment_statements@.len() implies stmt_is(
            #[trigger] self.current_segment_statements@[k],
            v.current.push(sv)[k],
        ) by {
            if k < before.len() {
                assert(stmt_is(before[k], v.current[k]));
            }
        }
    }

    /// The finished block.
    pub fn finalize(self, Ghost(v): Ghost<BuilderV>) -> (r: SeqBlock)
        requires
            builder_is(self, v),
        ensures
            block_is(r, finalize_spec(v)),
    {
        let mut segments = self.segments;
        let last = SeqBlockSegment {
            segment_label: self.current_segment_label,
            statements: self.current_segment_statements,
        };
        let ghost lv = SegmentV { label: v.current_label, statements: v.current };
        assert(segment_is(last, lv)) by {
            assert forall|k: int| 0 <= k < last.statements@.len() implies {
                &&& decreases_to!(last => last.statements@[k])
                &&& stmt_is(#[trigger] last.statements@[k], lv.statements[k])
            } by {
                assert(stmt_is(self.current_segment_statements@[k], v.current[k]));
            }
        }
        let ghost before = segments@;
        segments.push(last);
        let r = SeqBlock { kind: self.kind, label: self.label, segments };
        let ghost fv = finalize_spec(v);
        assert forall|k: int| 0 <= k < r.segments@.len() implies {
            &&& decreases_to!(r => r.segments@[k])
            &&& segment_is(#[trigger] r.segments@[k], fv.segments[k])
        } by {
            if k < before.len() {
                assert(r.segments@[k] == before[k]);
                assert(segment_is(before[k], v.segments[k]));
            }
        }
        r
    }
}

// ───────────────────────────────── messages ──────────────────────────────────

/// The arrows tried in order, with the message type they give and whether
/// they activate or deactivate the target.
pub open spec fn arrow(i: int) -> (Seq<char>, MessageType, bool, bool) {
    if i == 0 {
        (seq!['-', '-', '>', '>', '+'], MessageType::Dotted, true, false)
    } else if i == 1 {
        (seq!['-', '-', '>', '>', '-'], MessageType::Dotted, false, true)
    } else if i == 2 {
        (seq!['-', '>', '>', '+'], MessageType::Solid, true, false)
    } else if i == 3 {
        (seq!['-', '>', '>', '-'], MessageType::Solid, false, true)
    } else if i == 4 {
        (seq!['-', '-', '>', '+'], MessageType::DottedOpen, true, false)
    } else if i == 5 {
        (seq!['-', '-', '>', '-'], MessageType::DottedOpen, false, true)
    } else if i == 6 {
        (seq!['-', '>', '+'], MessageType::SolidOpen, true, false)
    } else if i == 7 {
        (seq!['-', '>', '-'], MessageType::SolidOpen, false, true)
    } else if i == 8 {
        (seq!['-', '-', '>', '>'], MessageType::Dotted, false, false)
    } else if i == 9 {
        (seq!['-', '>', '>'], MessageType::Solid, false, false)
    } else if i == 10 {
        (seq!['-', '-', '>'], MessageType::DottedOpen, false, false)
    } else {
        (seq!['-', '>'], MessageType::SolidOpen, false, false)
    }
}

fn arrow_exec(i: usize) -> (r: (Vec<char>, MessageType, bool, bool))
    requires
        i < 12,
    ensures
        (r.0@, r.1, r.2, r.3) == arrow(i as int),
{
    let r = if i == 0 {
        (vec!['-', '-', '>', '>', '+'], MessageType::Dotted, true, false)
    } else if i == 1 {
        (vec!['-', '-', '>', '>', '-'], MessageType::Dotted, false, true)
    } else if i == 2 {
        (vec!['-', '>', '>', '+'], MessageType::Solid, true, false)
    } else if i == 3 {
        (vec!['-', '>', '>', '-'], MessageType::Solid, false, true)
    } else if i == 4 {
        (vec!['-', '-', '>', '+'], MessageType::DottedOpen, true, false)
    } else if i == 5 {
        (vec!['-', '-', '>', '-'], MessageType::DottedOpen, false, true)
    } else if i == 6 {
        (vec!['-', '>', '+'], MessageType::SolidOpen, true, false)
    } else if i == 7 {
        (vec!['-', '>', '-'], MessageType::SolidOpen, false, true)
    } else if i == 8 {
        (vec!['-', '-', '>', '>'], MessageType::Dotted, false, false)
    } else if i == 9 {
        (vec!['-', '>', '>'], MessageType::Solid, false, false)
    } else if i == 10 {
        (vec!['-', '-', '>'], MessageType::DottedOpen, false, false)
    } else {
        (vec!['-', '>'], MessageType::SolidOpen, false, false)
    };
    assert(r.0@ =~= arrow(i as int).0);
    r
}

/// The message of a line, trying the arrows from the `i`-th on: the first
/// arrow found with a non-empty sender before it and a non-empty receiver
/// after it (up to a `:` that starts the label).
pub open spec fn try_arrows(line: Seq<char>, i: int) -> Option<MessageV>
    decreases 12 - i,
{
    if i < 0 || i >= 12 {
        None
    } else {
        let (p, ty, a, d) = arrow(i);
        match find_spec(line, p) {
            Some(pos) => {
                let from = trim_spec(line.take(pos));
                let rest = line.skip(pos + p.len());
                let to = match find_spec(rest, seq![':']) {
                    Some(c) => trim_spec(rest.take(c)),
                    None => trim_spec(rest),
                };
                let label = match find_spec(rest, seq![':']) {
                    Some(c) => trim_spec(rest.skip(c + 1)),
                    None => seq![],
                };
                if from.len() > 0 && to.len() > 0 {
                    Some(
                        MessageV {
                            from,
                            to,
                            label,
                            message_type: ty,
                            activate_target: a,
                            deactivate_target: d,
                        },
                    )
                } else {
                    try_arrows(line, i + 1)
                }
            },
            None => try_arrows(line, i + 1),
        }
    }
}

/// The number of dashes an arrow's line is drawn with: two for a dotted
/// line, one for a solid one.
pub open spec fn arrow_dashes(p: Seq<char>) -> int {
    if p.len() >= 2 && p[1] == '-' {
        2
    } else {
        1
    }
}

/// The number of `>` of an arrow's head: two for a filled head, one for an
/// open one.
pub open spec fn arrow_heads(p: Seq<char>) -> int {
    let d = arrow_dashes(p);
    if p.len() > d + 1 && p[d + 1] == '>' {
        2
    } else {
        1
    }
}

/// A message arrow: one or two dashes, one or two `>`, then at most one
/// `+` or `-`.
pub open spec fn is_message_arrow(p: Seq<char>) -> bool {
    let d = arrow_dashes(p);
    let h = arrow_heads(p);
    &&& p.len() >= 2
    &&& p[0] == '-'
    &&& p[d] == '>'
    &&& (p.len() == d + h || (p.len() == d + h + 1 && (p.last() == '+' || p.last() == '-')))
}

/// The message type an arrow draws: a dotted line (two dashes) or a solid
/// one, with a filled head (`>>`) or an open one (`>`).
pub open spec fn message_type_of(p: Seq<char>) -> MessageType {
    if arrow_dashes(p) == 2 {
        if arrow_heads(p) == 2 {
            MessageType::Dotted
        } else {
            MessageType::DottedOpen
        }
    } else {
        if arrow_heads(p) == 2 {
            MessageType::Solid
        } else {
            MessageType::SolidOpen
        }
    }
}

/// Each arrow tried is a message arrow and gives the type and activation
/// its characters draw.
proof fn lemma_arrow_draws(i: int)
    requires
        0 <= i < 12,
    ensures
        ({
            let (p, ty, a, d) = arrow(i);
            &&& is_message_arrow(p)
            &&& ty == message_type_of(p)
            &&& a == (p.last() == '+')
            &&& d == (p.last() == '-' && p.len() > arrow_dashes(p) + arrow_heads(p))
        }),
{
}

/// The receiver written after an arrow ending at `end`: up to a `:`,
/// trimmed.
pub open spec fn receiver_after(line: Seq<char>, end: int) -> Seq<char> {
    let rest = line.skip(end);
    match find_spec(rest, seq![':']) {
        Some(c) => trim_spec(rest.take(c)),
        None => trim_spec(rest),
    }
}

/// The label written after an arrow ending at `end`: what follows its `:`,
/// trimmed; empty without a `:`.
pub open spec fn label_after(line: Seq<char>, end: int) -> Seq<char> {
    let rest = line.skip(end);
    match find_spec(rest, seq![':']) {
        Some(c) => trim_spec(rest.skip(c + 1)),
        None => seq![],
    }
}

/// The messages from the `i`-th arrow on are drawn as their arrows say.
proof fn lemma_try_arrows_drawn(line: Seq<char>, i: int)
    requires
        0 <= i,
    ensures
        try_arrows(line, i) matches Some(m) ==> exists|pos: int, p: Seq<char>|
            #![trigger matches_at(line, p, pos)]
            is_message_arrow(p) && matches_at(line, p, pos) && m.from == trim_spec(line.take(pos)) && m.to
                == receiver_after(line, pos + p.len()) && m.label == label_after(line, pos + p.len())
                && m.message_type == message_type_of(p)
                && m.activate_target == (p.last() == '+') && m.deactivate_target == (p.last() == '-'
                && p.len() > arrow_dashes(p) + arrow_heads(p)),
    decreases 12 - i,
{
    if i < 12 {
        lemma_try_arrows_drawn(line, i + 1);
        let p = arrow(i).0;
        if let Some(pos) = find_spec(line, p) {
            lemma_find_from_bounds(line, p, 0);
            lemma_arrow_draws(i);
            assert(matches_at(line, p, pos));
        }
    }
}

/// A message is drawn as its arrow is written: the arrow stands in the line
/// between the sender and the receiver, the label after its `:`; two dashes (`-->`, `-->>`) draw a
/// dotted line and one (`->`, `->>`) a solid one; `>>` a filled head and
/// `>` an open one, so `->>` is Solid, `->` SolidOpen, `-->>` Dotted and
/// `-->` DottedOpen; a trailing `+` activates the receiver and a trailing
/// `-` deactivates it.
pub proof fn law_message_type_from_arrow(line: Seq<char>)
    ensures
        try_arrows(line, 0) matches Some(m) ==> exists|pos: int, p: Seq<char>|
            #![trigger matches_at(line, p, pos)]
            is_message_arrow(p) && matches_at(line, p, pos) && m.from == trim_spec(line.take(pos)) && m.to
                == receiver_after(line, pos + p.len()) && m.label == label_after(line, pos + p.len())
                && m.message_type == message_type_of(p)
                && m.activate_target == (p.last() == '+') && m.deactivate_target == (p.last() == '-'
                && p.len() > arrow_dashes(p) + arrow_heads(p)),
{
    lemma_try_arrows_drawn(line, 0);
}

/// The optional message as plain values.
pub open spec fn opt_message(m: Option<Message>) -> Option<MessageV> {
    match m {
        Some(x) => Some(message_view(x)),
        None => None,
    }
}

/// The message of a line, if it is one.
pub fn parse_sequence_message(line: &[char]) -> (r: Option<Message>)
    ensures
        opt_message(r) == try_arrows(line@, 0),
{
    let colon: Vec<char> = vec![':'];
    assert(colon@ =~= seq![':']);
    let mut i: usize = 0;
    while i < 12
        invariant
            i <= 12,
            colon@ == seq![':'],
            try_arrows(line@, i as int) == try_arrows(line@, 0),
        decreases 12 - i,
    {
        let (pat, ty, act, deact) = arrow_exec(i);
        match find(line, pat.as_slice()) {
            Some(pos) => {
                let n = line.len();
                proof {
                    lemma_find_from_bounds(line@, pat@, 0);
                    assert(pos + pat@.len() <= n);
                }
                let from = trim(&line[0..pos]);
                assert(line@.subrange(0, pos as int) =~= line@.take(pos as int));
                let rest_start = pos + pat.len();
                let rest = crate::text::slice_copy(line, rest_start, line.len());
                assert(rest@ =~= line@.skip(rest_start as int));
                let (to, label) = match find(rest.as_slice(), colon.as_slice()) {
                    Some(c) => {
                        proof {
                            lemma_find_from_bounds(rest@, seq![':'], 0);
                        }
                        let t = trim(&rest.as_slice()[0..c]);
                        let l = trim(&rest.as_slice()[c + 1..rest.len()]);
                        assert(rest@.subrange(0, c as int) =~= rest@.take(c as int));
                        assert(rest@.subrange(c + 1, rest@.len() as int) =~= rest@.skip(c + 1));
                        (t, l)
                    },
                    None => {
                        let t = trim(rest.as_slice());
                        let l: Vec<char> = Vec::new();
                        assert(l@ =~= seq![]);
                        (t, l)
                    },
                };
                if from.len() > 0 && to.len() > 0 {
                    return Some(
                        Message {
                            from: string_of(from.as_slice()),
                            to: string_of(to.as_slice()),
                            label: string_of(label.as_slice()),
                            message_type: ty,
                            activate_target: act,
                            deactivate_target: deact,
                        },
                    );
                }
            },
            None => {},
        }
        i = i + 1;
    }
    None
}

// ────────────────────────────────── notes ────────────────────────────────────

pub open spec fn note_word() -> Seq<char> {
    seq!['n', 'o', 't', 'e', ' ']
}

pub open spec fn left_of_word() -> Seq<char> {
    seq!['l', 'e', 'f', 't', ' ', 'o', 'f', ' ']
}

pub open spec fn right_of_word() -> Seq<char> {
    seq!['r', 'i', 'g', 'h', 't', ' ', 'o', 'f', ' ']
}

pub open spec fn over_word() -> Seq<char> {
    seq!['o', 'v', 'e', 'r', ' ']
}

/// The note of a line `note <position>: text`, the keywords compared
/// without regard to ASCII case: `left of X`, `right of X`, or
/// `over X, Y` (at least one participant).
pub open spec fn note_spec(line: Seq<char>) -> Option<(NotePosV, Seq<char>)> {
    if !starts_with_ci_spec(line, note_word()) {
        None
    } else {
        let rest = line.skip(5);
        match find_spec(rest, seq![':']) {
            None => None,
            Some(c) => {
                let pp = trim_spec(rest.take(c));
                let text = trim_spec(rest.skip(c + 1));
                if starts_with_ci_spec(pp, left_of_word()) {
                    Some((NotePosV::LeftOf(trim_spec(pp.skip(8))), text))
                } else if starts_with_ci_spec(pp, right_of_word()) {
                    Some((NotePosV::RightOf(trim_spec(pp.skip(9))), text))
                } else if starts_with_ci_spec(pp, over_word()) {
                    let ps = crate::markdown::mermaid::timeline::trimmed_nonempty(
                        split_char_spec(trim_spec(pp.skip(5)), ','),
                    );
                    if ps.len() == 0 {
                        None
                    } else {
                        Some((NotePosV::Over(ps), text))
                    }
                } else {
                    None
                }
            },
        }
    }
}

/// A note is placed as its position words say: `left of X` gives a note to
/// the left of `X`, `right of X` one to its right, and `over X, Y` one over
/// the listed participants (the words in any ASCII case, between `note`
/// and the `:`).
pub proof fn law_note_position_from_words(line: Seq<char>)
    ensures
        note_spec(line) matches Some((pos, _)) ==> ({
            let pp = trim_spec(line.skip(5).take(find_spec(line.skip(5), seq![':']).unwrap()));
            &&& starts_with_ci_spec(line, "note "@)
            &&& (pos matches NotePosV::LeftOf(x) ==> starts_with_ci_spec(pp, "left of "@) && x == trim_spec(
                pp.skip(8),
            ))
            &&& (pos matches NotePosV::RightOf(x) ==> starts_with_ci_spec(pp, "right of "@) && x
                == trim_spec(pp.skip(9)))
            &&& (pos matches NotePosV::Over(xs) ==> starts_with_ci_spec(pp, "over "@) && xs.len() > 0)
        }),
{
    reveal_strlit("note ");
    reveal_strlit("left of ");
    reveal_strlit("right of ");
    reveal_strlit("over ");
    assert("note "@ =~= note_word());
    assert("left of "@ =~= left_of_word());
    assert("right of "@ =~= right_of_word());
    assert("over "@ =~= over_word());
}

/// A block's kind and its opening keyword name each other: the keyword of a
/// kind opens a block of that kind, and a keyword that opens a block is the
/// keyword of the kind it opens (`loop`, `alt`, `opt`, `par`).
pub proof fn law_block_keyword_roundtrip(k: SeqBlockKind, w: Seq<char>)
    ensures
        kind_of_keyword(kind_word(k)) == Some(k),
        kind_of_keyword(w) matches Some(k2) ==> w == kind_word(k2),
        kind_word(SeqBlockKind::Loop) == "loop"@,
        kind_word(SeqBlockKind::Alt) == "alt"@,
        kind_word(SeqBlockKind::Opt) == "opt"@,
        kind_word(SeqBlockKind::Par) == "par"@,
{
    reveal_strlit("loop");
    reveal_strlit("alt");
    reveal_strlit("opt");
    reveal_strlit("par");
    assert(loop_word() != alt_word());
    assert(loop_word() != opt_word());
    assert(loop_word() != par_word());
    assert(alt_word() != opt_word());
    assert(alt_word() != par_word());
    assert(opt_word() != par_word());
    assert(kind_word(SeqBlockKind::Loop) =~= "loop"@);
    assert(kind_word(SeqBlockKind::Alt) =~= "alt"@);
    assert(kind_word(SeqBlockKind::Opt) =~= "opt"@);
    assert(kind_word(SeqBlockKind::Par) =~= "par"@);
}

/// The optional note as plain values.
pub open spec fn opt_note(n: Option<SeqNote>) -> Option<(NotePosV, Seq<char>)> {
    match n {
        Some(x) => Some(note_view(x)),
        None => None,
    }
}

/// The trimmed, non-empty pieces of a comma-separated list.
fn participant_list(s: &Vec<char>) -> (r: Vec<String>)
    ensures
        strings_view(r@) == crate::markdown::mermaid::timeline::trimmed_nonempty(
            split_char_spec(s@, ','),
        ),
{
    let parts = split_char(s.as_slice(), ',');
    let ghost ps = views_of(parts@);
    let mut r: Vec<String> = Vec::new();
    let mut i: usize = 0;
    while i < parts.len()
        invariant
            i <= parts@.len(),
            ps == views_of(parts@),
            ps == split_char_spec(s@, ','),
            strings_view(r@) == crate::markdown::mermaid::timeline::trimmed_nonempty(
                ps.take(i as int),
            ),
        decreases parts@.len() - i,
    {
        let t = trim(parts[i].as_slice());
        proof {
            assert(ps.take(i + 1 as int).drop_last() =~= ps.take(i as int));
            assert(ps.take(i + 1 as int).last() == parts@[i as int]@);
        }
        if t.len() > 0 {
            let ghost before = strings_view(r@);
            r.push(string_of(t.as_slice()));
            assert(strings_view(r@) =~= before.push(t@));
        }
        i = i + 1;
    }
    assert(ps.take(parts@.len() as int) =~= ps);
    r
}

/// The note of a line, if it is one.
pub fn parse_sequence_note(line: &[char]) -> (r: Option<SeqNote>)
    ensures
        opt_note(r) == note_spec(line@),
{
    let nw: Vec<char> = vec!['n', 'o', 't', 'e', ' '];
    let lw: Vec<char> = vec!['l', 'e', 'f', 't', ' ', 'o', 'f', ' '];
    let rw: Vec<char> = vec!['r', 'i', 'g', 'h', 't', ' ', 'o', 'f', ' '];
    let ow: Vec<char> = vec!['o', 'v', 'e', 'r', ' '];
    let colon: Vec<char> = vec![':'];
    assert(nw@ =~= note_word());
    assert(lw@ =~= left_of_word());
    assert(rw@ =~= right_of_word());
    assert(ow@ =~= over_word());
    assert(colon@ =~= seq![':']);
    if !starts_with_ci(line, nw.as_slice()) {
        return None;
    }
    let rest = crate::text::slice_copy(line, 5, line.len());
    assert(rest@ =~= line@.skip(5));
    let c = match find(rest.as_slice(), colon.as_slice()) {
        None => {
            return None;
        },
        Some(c) => c,
    };
    proof {
        lemma_find_from_bounds(rest@, seq![':'], 0);
    }
    let pp = trim(&rest.as_slice()[0..c]);
    assert(rest@.subrange(0, c as int) =~= rest@.take(c as int));
    let text_chars = trim(&rest.as_slice()[c + 1..rest.len()]);
    assert(rest@.subrange(c + 1, rest@.len() as int) =~= rest@.skip(c + 1));
    let text = string_of(text_chars.as_slice());
    if starts_with_ci(pp.as_slice(), lw.as_slice()) {
        let who = trim(&pp.as_slice()[8..pp.len()]);
        assert(pp@.subrange(8, pp@.len() as int) =~= pp@.skip(8));
        return Some(SeqNote { position: NotePosition::LeftOf(string_of(who.as_slice())), text });
    }
    if starts_with_ci(pp.as_slice(), rw.as_slice()) {
        let who = trim(&pp.as_slice()[9..pp.len()]);
        assert(pp@.subrange(9, pp@.len() as int) =~= pp@.skip(9));
        return Some(SeqNote { position: NotePosition::RightOf(string_of(who.as_slice())), text });
    }
    if starts_with_ci(pp.as_slice(), ow.as_slice()) {
        let who = trim(&pp.as_slice()[5..pp.len()]);
        assert(pp@.subrange(5, pp@.len() as int) =~= pp@.skip(5));
        let ps = participant_list(&who);
        if ps.len() == 0 {
            return None;
        }
        return Some(SeqNote { position: NotePosition::Over(ps), text });
    }
    None
}

// ─────────────────────────────── parser state ────────────────────────────────

/// The parser state between lines: participants so far, top-level
/// statements, the open blocks (innermost last), and the first error.
pub struct SeqState {
    pub participants: Seq<(Seq<char>, Seq<char>, bool)>,
    pub statements: Seq<StmtV>,
    pub stack: Seq<BuilderV>,
    pub error: Option<Seq<char>>,
}

/// Whether a participant with this id is declared.
pub open spec fn has_participant(ps: Seq<(Seq<char>, Seq<char>, bool)>, id: Seq<char>) -> bool {
    exists|k: int| 0 <= k < ps.len() && #[trigger] ps[k].0 == id
}

/// Declare a participant unless one with the same id is declared.
pub open spec fn add_participant(
    ps: Seq<(Seq<char>, Seq<char>, bool)>,
    id: Seq<char>,
    label: Seq<char>,
    is_actor: bool,
) -> Seq<(Seq<char>, Seq<char>, bool)> {
    if has_participant(ps, id) {
        ps
    } else {
        ps.push((id, label, is_actor))
    }
}

/// Declare each of the ids in turn, labelled by themselves.
pub open spec fn add_ids(ps: Seq<(Seq<char>, Seq<char>, bool)>, ids: Seq<Seq<char>>) -> Seq<
    (Seq<char>, Seq<char>, bool),
>
    decreases ids.len(),
{
    if ids.len() == 0 {
        ps
    } else {
        add_ids(add_participant(ps, ids[0], ids[0], false), ids.drop_first())
    }
}

/// A statement goes into the open segment of the innermost open block, or
/// to the top level without one.
pub open spec fn emit(st: SeqState, s: StmtV) -> SeqState {
    if st.stack.len() > 0 {
        let top = st.stack.last();
        SeqState {
            stack: st.stack.update(st.stack.len() - 1, BuilderV { current: top.current.push(s), ..top }),
            ..st
        }
    } else {
        SeqState { statements: st.statements.push(s), ..st }
    }
}

/// `Line <n>: <msg>`.
pub open spec fn line_error(n: nat, msg: Seq<char>) -> Seq<char> {
    "Line "@ + decimal_spec(n) + ": "@ + msg
}

pub open spec fn participant_word() -> Seq<char> {
    "participant "@
}

pub open spec fn actor_word() -> Seq<char> {
    "actor "@
}

pub open spec fn as_word() -> Seq<char> {
    " as "@
}

/// The first whitespace-separated word, empty without one.
pub open spec fn first_word(line: Seq<char>) -> Seq<char> {
    let w = split_whitespace_spec(line);
    if w.len() > 0 {
        w[0]
    } else {
        seq![]
    }
}

/// `else` in an `alt` block or `and` in a `par` block starts a new segment
/// labelled by the rest of the line; elsewhere it is an error.
pub open spec fn separator(
    st: SeqState,
    line: Seq<char>,
    n: nat,
    kind: SeqBlockKind,
    skip: int,
    wrong: Seq<char>,
    none: Seq<char>,
) -> SeqState {
    if st.stack.len() == 0 {
        SeqState { error: Some(line_error(n, none)), ..st }
    } else if st.stack.last().kind != kind {
        SeqState { error: Some(line_error(n, wrong)), ..st }
    } else {
        let l = trim_spec(line.skip(skip));
        let label = if l.len() == 0 {
            None
        } else {
            Some(l)
        };
        SeqState {
            stack: st.stack.update(st.stack.len() - 1, new_segment_spec(st.stack.last(), label)),
            ..st
        }
    }
}

/// What one line, the `n`-th of the source, does to the parser state.
pub open spec fn seq_step(st: SeqState, raw: Seq<char>, n: nat) -> SeqState {
    let line = trim_spec(raw);
    if st.error is Some || line.len() == 0 || starts_with_spec(line, percent2()) {
        st
    } else if starts_with_spec(line, participant_word()) || starts_with_spec(line, actor_word()) {
        let is_actor = starts_with_spec(line, actor_word());
        let rest = trim_spec(
            if is_actor {
                line.skip(6)
            } else {
                line.skip(12)
            },
        );
        let id = match find_spec(rest, as_word()) {
            Some(p) => trim_spec(rest.take(p)),
            None => rest,
        };
        let label = match find_spec(rest, as_word()) {
            Some(p) => trim_spec(rest.skip(p + 4)),
            None => rest,
        };
        SeqState { participants: add_participant(st.participants, id, label, is_actor), ..st }
    } else {
        let fw = first_word(line);
        match kind_of_keyword(fw) {
            Some(kind) => SeqState {
                stack: st.stack.push(
                    BuilderV {
                        kind,
                        label: trim_spec(line.skip(fw.len() as int)),
                        segments: seq![],
                        current_label: None,
                        current: seq![],
                    },
                ),
                ..st
            },
            None => if fw == "else"@ {
                separator(
                    st,
                    line,
                    n,
                    SeqBlockKind::Alt,
                    4,
                    "'else' can only be used inside 'alt' blocks"@,
                    "'else' without matching 'alt' block"@,
                )
            } else if fw == "and"@ {
                separator(
                    st,
                    line,
                    n,
                    SeqBlockKind::Par,
                    3,
                    "'and' can only be used inside 'par' blocks"@,
                    "'and' without matching 'par' block"@,
                )
            } else if fw == "end"@ {
                if st.stack.len() == 0 {
                    SeqState {
                        error: Some(line_error(n, "'end' without matching block opener"@)),
                        ..st
                    }
                } else {
                    emit(
                        SeqState { stack: st.stack.drop_last(), ..st },
                        StmtV::Block(finalize_spec(st.stack.last())),
                    )
                }
            } else if fw == "activate"@ {
                let id = trim_spec(line.skip(8));
                if id.len() == 0 {
                    st
                } else {
                    emit(
                        SeqState { participants: add_participant(st.participants, id, id, false), ..st },
                        StmtV::Activate(id),
                    )
                }
            } else if fw == "deactivate"@ {
                let id = trim_spec(line.skip(10));
                if id.len() == 0 {
                    st
                } else {
                    emit(st, StmtV::Deactivate(id))
                }
            } else {
                match note_spec(line) {
                    Some(note) => {
                        let ps = match note.0 {
                            NotePosV::LeftOf(id) => add_participant(st.participants, id, id, false),
                            NotePosV::RightOf(id) => add_participant(st.participants, id, id, false),
                            NotePosV::Over(ids) => add_ids(st.participants, ids),
                        };
                        emit(SeqState { participants: ps, ..st }, StmtV::Note(note))
                    },
                    None => match try_arrows(line, 0) {
                        Some(m) => emit(
                            SeqState {
                                participants: add_participant(
                                    add_participant(st.participants, m.from, m.from, false),
                                    m.to,
                                    m.to,
                                    false,
                                ),
                                ..st
                            },
                            StmtV::Message(m),
                        ),
                        None => st,
                    },
                }
            },
        }
    }
}

/// The parser state after the given lines (the first of them is line 2).
pub open spec fn seq_fold(ls: Seq<Seq<char>>) -> SeqState
    decreases ls.len(),
{
    if ls.len() == 0 {
        SeqState { participants: seq![], statements: seq![], stack: seq![], error: None }
    } else {
        seq_step(seq_fold(ls.drop_last()), ls.last(), ls.len() + 1)
    }
}

/// The participants and statements of a sequence diagram source, or the
/// error: the first line error, else an unclosed block, else the lack of
/// participants.
pub open spec fn sequence_spec(source: Seq<char>) -> Result<
    (Seq<(Seq<char>, Seq<char>, bool)>, Seq<StmtV>),
    Seq<char>,
> {
    let st = seq_fold(after_first(lines_spec(source)));
    match st.error {
        Some(e) => Err(e),
        None => if st.stack.len() > 0 {
            Err("Unclosed '"@ + kind_word(st.stack.last().kind) + "' block at end of diagram"@)
        } else if st.participants.len() == 0 {
            Err("No participants found in sequence diagram"@)
        } else {
            Ok((st.participants, st.statements))
        },
    }
}

/// Once an error is set, later lines keep it.
proof fn lemma_error_sticks(all: Seq<Seq<char>>, i: int, k: int)
    requires
        0 <= i <= k <= all.len(),
        seq_fold(all.take(i)).error is Some,
    ensures
        seq_fold(all.take(k)).error == seq_fold(all.take(i)).error,
    decreases k - i,
{
    if k > i {
        lemma_error_sticks(all, i, k - 1);
        assert(all.take(k).drop_last() =~= all.take(k - 1));
    }
}

/// The open blocks `s` are the builders `v`.
pub closed spec fn stack_is(s: Seq<SeqBlockBuilder>, v: Seq<BuilderV>) -> bool {
    &&& s.len() == v.len()
    &&& forall|k: int| 0 <= k < s.len() ==> builder_is(#[trigger] s[k], v[k])
}

/// Whether a participant with this id is declared.
fn has_participant_exec(ps: &Vec<Participant>, id: &String) -> (b: bool)
    ensures
        b == has_participant(participants_view(ps@), id@),
{
    let ghost pv = participants_view(ps@);
    let mut k: usize = 0;
    while k < ps.len()
        invariant
            k <= ps@.len(),
            pv == participants_view(ps@),
            forall|j: int| 0 <= j < k ==> pv[j].0 != id@,
        decreases ps@.len() - k,
    {
        if ps[k].id == *id {
            assert(pv[k as int].0 == id@);
            return true;
        }
        k = k + 1;
    }
    false
}

/// Declare a participant unless one with the same id is declared.
fn add_participant_exec(ps: &mut Vec<Participant>, id: String, label: String, is_actor: bool)
    ensures
        participants_view(final(ps)@) == add_participant(participants_view(old(ps)@), id@, label@, is_actor),
{
    if !has_participant_exec(ps, &id) {
        let ghost before = participants_view(ps@);
        let p = Participant { id, label, is_actor };
        ps.push(p);
        assert(participants_view(ps@) =~= before.push(participant_view(p)));
    }
}

/// Declare each of the ids in turn.
fn add_ids_exec(ps: &mut Vec<Participant>, ids: &Vec<String>)
    ensures
        participants_view(final(ps)@) == add_ids(participants_view(old(ps)@), strings_view(ids@)),
{
    let ghost all = strings_view(ids@);
    let mut i: usize = 0;
    assert(all.skip(0) =~= all);
    while i < ids.len()
        invariant
            i <= ids@.len(),
            all == strings_view(ids@),
            add_ids(participants_view(ps@), all.skip(i as int)) == add_ids(
                participants_view(old(ps)@),
                all,
            ),
        decreases ids@.len() - i,
    {
        assert(all.skip(i as int).drop_first() =~= all.skip(i + 1));
        assert(all.skip(i as int)[0] == ids@[i as int]@);
        add_participant_exec(ps, ids[i].clone(), ids[i].clone(), false);
        i = i + 1;
    }
    assert(all.skip(ids@.len() as int) =~= seq![]);
}

/// Put a statement into the innermost open block, or the top level.
fn emit_exec(
    statements: &mut Vec<SeqStatement>,
    stack: &mut Vec<SeqBlockBuilder>,
    stmt: SeqStatement,
    Ghost(st): Ghost<SeqState>,
    Ghost(sv): Ghost<StmtV>,
)
    requires
        stmts_are(old(statements)@, st.statements),
        stack_is(old(stack)@, st.stack),
        stmt_is(stmt, sv),
    ensures
        stmts_are(final(statements)@, emit(st, sv).statements),
        stack_is(final(stack)@, emit(st, sv).stack),
{
    if stack.len() > 0 {
        let ghost n = stack@.len() - 1;
        assert(builder_is(stack@[n], st.stack[n]));
        let mut top = stack.pop().unwrap();
        top.add_statement(stmt, Ghost(st.stack[n]), Ghost(sv));
        let ghost before = stack@;
        stack.push(top);
        assert forall|k: int| 0 <= k < stack@.len() implies builder_is(
            #[trigger] stack@[k],
            emit(st, sv).stack[k],
        ) by {
            if k < n {
                assert(stack@[k] == old(stack)@[k]);
                assert(builder_is(old(stack)@[k], st.stack[k]));
            }
        }
    } else {
        let ghost before = statements@;
        statements.push(stmt);
        assert forall|k: int| 0 <= k < statements@.len() implies stmt_is(
            #[trigger] statements@[k],
            emit(st, sv).statements[k],
        ) by {
            if k < before.len() {
                assert(stmt_is(before[k], st.statements[k]));
            }
        }
    }
}

/// The message `Line <n>: <msg>`.
fn line_error_exec(n: usize, msg: &str) -> (r: String)
    ensures
        r@ == line_error(n as nat, msg@),
{
    let mut r = String::from_str("Line ");
    let d = decimal(n as u64);
    r.append(string_of(d.as_slice()).as_str());
    r.append(": ");
    r.append(msg);
    r
}

/// `else` or `and`: start a new segment of the innermost block when it has
/// the right kind.
fn separator_exec(
    stack: &mut Vec<SeqBlockBuilder>,
    line: &Vec<char>,
    n: usize,
    kind: SeqBlockKind,
    skip: usize,
    wrong: &str,
    none: &str,
    Ghost(st): Ghost<SeqState>,
) -> (r: Result<(), String>)
    requires
        stack_is(old(stack)@, st.stack),
        skip <= line@.len(),
        st.error is None,
    ensures
        ({
            let s2 = separator(st, line@, n as nat, kind, skip as int, wrong@, none@);
            &&& r is Err <==> s2.error is Some
            &&& r matches Err(e) ==> s2.error == Some(e@)
            &&& r is Ok ==> stack_is(final(stack)@, s2.stack)
        }),
{
    if stack.len() == 0 {
        return Err(line_error_exec(n, none));
    }
    let ghost m = stack@.len() - 1;
    assert(builder_is(stack@[m], st.stack[m]));
    let mut top = stack.pop().unwrap();
    if top.kind != kind {
        return Err(line_error_exec(n, wrong));
    }
    let l = trim(&line.as_slice()[skip..line.len()]);
    assert(line@.subrange(skip as int, line@.len() as int) =~= line@.skip(skip as int));
    let label = if l.len() == 0 {
        None
    } else {
        Some(string_of(l.as_slice()))
    };
    top.start_new_segment(label, Ghost(st.stack[m]));
    stack.push(top);
    let ghost s2 = separator(st, line@, n as nat, kind, skip as int, wrong@, none@);
    assert forall|k: int| 0 <= k < stack@.len() implies builder_is(#[trigger] stack@[k], s2.stack[k]) by {
        if k < m {
            assert(stack@[k] == old(stack)@[k]);
            assert(builder_is(old(stack)@[k], st.stack[k]));
        }
    }
    Ok(())
}

/// The first word of a string is the stretch from its first non-blank
/// character to the next blank.
proof fn lemma_first_word(s: Seq<char>)
    ensures
        crate::text::skip_ws_from(s, 0) < s.len() ==> first_word(s) == s.subrange(
            crate::text::skip_ws_from(s, 0),
            crate::text::next_ws_from(s, crate::text::skip_ws_from(s, 0)),
        ),
        crate::text::skip_ws_from(s, 0) >= s.len() ==> first_word(s) == Seq::<char>::empty(),
{
    crate::text::lemma_skip_ws_bounds(s, 0);
    let a = crate::text::skip_ws_from(s, 0);
    if a < s.len() {
        crate::text::lemma_next_ws_bounds(s, a);
    }
}

/// The first word of a line.
fn first_word_exec(line: &Vec<char>) -> (w: Vec<char>)
    ensures
        w@ == first_word(line@),
        w@.len() <= line@.len(),
{
    proof {
        lemma_first_word(line@);
    }
    let a = crate::text::skip_ws_index(line.as_slice(), 0);
    proof {
        crate::text::lemma_skip_ws_bounds(line@, 0);
    }
    if a >= line.len() {
        let w: Vec<char> = Vec::new();
        assert(w@ =~= seq![]);
        return w;
    }
    let b = crate::text::next_ws_index(line.as_slice(), a);
    proof {
        crate::text::lemma_next_ws_bounds(line@, a as int);
    }
    crate::text::slice_copy(line.as_slice(), a, b)
}

/// Apply one line, the `n`-th of the source.
fn step(
    participants: &mut Vec<Participant>,
    statements: &mut Vec<SeqStatement>,
    stack: &mut Vec<SeqBlockBuilder>,
    raw: &[char],
    n: usize,
    Ghost(st): Ghost<SeqState>,
) -> (r: Result<(), String>)
    requires
        st.error is None,
        participants_view(old(participants)@) == st.participants,
        stmts_are(old(statements)@, st.statements),
        stack_is(old(stack)@, st.stack),
    ensures
        ({
            let s2 = seq_step(st, raw@, n as nat);
            &&& r is Err <==> s2.error is Some
            &&& r matches Err(e) ==> s2.error == Some(e@)
            &&& r is Ok ==> {
                &&& participants_view(final(participants)@) == s2.participants
                &&& stmts_are(final(statements)@, s2.statements)
                &&& stack_is(final(stack)@, s2.stack)
            }
        }),
{
    let line = trim(raw);
    let pct: Vec<char> = vec!['%', '%'];
    assert(pct@ =~= percent2());
    if line.len() == 0 || starts_with(line.as_slice(), pct.as_slice()) {
        return Ok(());
    }
    let pw = chars_of("participant ");
    let aw = chars_of("actor ");
    proof {
        reveal_strlit("participant ");
        reveal_strlit("actor ");
        reveal_strlit(" as ");
    }
    if starts_with(line.as_slice(), pw.as_slice()) || starts_with(line.as_slice(), aw.as_slice()) {
        let is_actor = starts_with(line.as_slice(), aw.as_slice());
        let skip: usize = if is_actor {
            6
        } else {
            12
        };
        let rest = trim(&line.as_slice()[skip..line.len()]);
        assert(line@.subrange(skip as int, line@.len() as int) =~= line@.skip(skip as int));
        let asw = chars_of(" as ");
        let (id, label) = match find(rest.as_slice(), asw.as_slice()) {
            Some(p) => {
                let rl = rest.len();
                proof {
                    lemma_find_from_bounds(rest@, asw@, 0);
                    assert(p + 4 <= rl);
                }
                let i = trim(&rest.as_slice()[0..p]);
                let l = trim(&rest.as_slice()[p + 4..rest.len()]);
                assert(rest@.subrange(0, p as int) =~= rest@.take(p as int));
                assert(rest@.subrange(p + 4, rest@.len() as int) =~= rest@.skip(p + 4));
                (i, l)
            },
            None => (crate::text::slice_copy(rest.as_slice(), 0, rest.len()), crate::text::slice_copy(
                rest.as_slice(),
                0,
                rest.len(),
            )),
        };
        proof {
            assert(rest@.subrange(0, rest@.len() as int) =~= rest@);
        }
        add_participant_exec(participants, string_of(id.as_slice()), string_of(label.as_slice()), is_actor);
        return Ok(());
    }
    let fw = first_word_exec(&line);
    match SeqBlockKind::from_keyword(fw.as_slice()) {
        Some(kind) => {
            let label = trim(&line.as_slice()[fw.len()..line.len()]);
            assert(line@.subrange(fw@.len() as int, line@.len() as int) =~= line@.skip(fw@.len() as int));
            let b = SeqBlockBuilder::new(kind, string_of(label.as_slice()));
            let ghost before = stack@;
            stack.push(b);
            let ghost s2 = seq_step(st, raw@, n as nat);
            assert forall|k: int| 0 <= k < stack@.len() implies builder_is(#[trigger] stack@[k], s2.stack[k]) by {
                if k < before.len() {
                    assert(stack@[k] == before[k]);
                    assert(builder_is(before[k], st.stack[k]));
                }
            }
            return Ok(());
        },
        None => {},
    }
    let ew = chars_of("else");
    let andw = chars_of("and");
    let endw = chars_of("end");
    let actw = chars_of("activate");
    let deactw = chars_of("deactivate");
    proof {
        reveal_strlit("else");
        reveal_strlit("and");
        reveal_strlit("end");
        reveal_strlit("activate");
        reveal_strlit("deactivate");
    }
    if crate::text::eq_chars(fw.as_slice(), ew.as_slice()) {
        return separator_exec(
            stack,
            &line,
            n,
            SeqBlockKind::Alt,
            4,
            "'else' can only be used inside 'alt' blocks",
            "'else' without matching 'alt' block",
            Ghost(st),
        );
    }
    if crate::text::eq_chars(fw.as_slice(), andw.as_slice()) {
        return separator_exec(
            stack,
            &line,
            n,
            SeqBlockKind::Par,
            3,
            "'and' can only be used inside 'par' blocks",
            "'and' without matching 'par' block",
            Ghost(st),
        );
    }
    if crate::text::eq_chars(fw.as_slice(), endw.as_slice()) {
        if stack.len() == 0 {
            return Err(line_error_exec(n, "'end' without matching block opener"));
        }
        let ghost m = stack@.len() - 1;
        assert(builder_is(stack@[m], st.stack[m]));
        let b = stack.pop().unwrap();
        let block = b.finalize(Ghost(st.stack[m]));
        let ghost st2 = SeqState { stack: st.stack.drop_last(), ..st };
        assert(stack_is(stack@, st2.stack)) by {
            assert forall|k: int| 0 <= k < stack@.len() implies builder_is(#[trigger] stack@[k], st2.stack[k]) by {
                assert(stack@[k] == old(stack)@[k]);
                assert(builder_is(old(stack)@[k], st.stack[k]));
            }
        }
        let stmt = SeqStatement::Block(block);
        emit_exec(statements, stack, stmt, Ghost(st2), Ghost(StmtV::Block(finalize_spec(st.stack[m]))));
        return Ok(());
    }
    if crate::text::eq_chars(fw.as_slice(), actw.as_slice()) {
        let id = trim(&line.as_slice()[8..line.len()]);
        assert(line@.subrange(8, line@.len() as int) =~= line@.skip(8));
        if id.len() > 0 {
            add_participant_exec(participants, string_of(id.as_slice()), string_of(id.as_slice()), false);
            let ghost st2 = SeqState { participants: participants_view(participants@), ..st };
            emit_exec(statements, stack, SeqStatement::Activate(string_of(id.as_slice())), Ghost(st2), Ghost(StmtV::Activate(id@)));
        }
        return Ok(());
    }
    if crate::text::eq_chars(fw.as_slice(), deactw.as_slice()) {
        let id = trim(&line.as_slice()[10..line.len()]);
        assert(line@.subrange(10, line@.len() as int) =~= line@.skip(10));
        if id.len() > 0 {
            emit_exec(statements, stack, SeqStatement::Deactivate(string_of(id.as_slice())), Ghost(st), Ghost(StmtV::Deactivate(id@)));
        }
        return Ok(());
    }
    match parse_sequence_note(line.as_slice()) {
        Some(note) => {
            match &note.position {
                NotePosition::LeftOf(id) => {
                    add_participant_exec(participants, id.clone(), id.clone(), false);
                },
                NotePosition::RightOf(id) => {
                    add_participant_exec(participants, id.clone(), id.clone(), false);
                },
                NotePosition::Over(ids) => {
                    add_ids_exec(participants, ids);
                },
            }
            let ghost nv = note_view(note);
            let ghost st2 = SeqState { participants: participants_view(participants@), ..st };
            emit_exec(statements, stack, SeqStatement::Note(note), Ghost(st2), Ghost(StmtV::Note(nv)));
            return Ok(());
        },
        None => {},
    }
    match parse_sequence_message(line.as_slice()) {
        Some(msg) => {
            add_participant_exec(participants, msg.from.clone(), msg.from.clone(), false);
            add_participant_exec(participants, msg.to.clone(), msg.to.clone(), false);
            let ghost mv = message_view(msg);
            let ghost st2 = SeqState { participants: participants_view(participants@), ..st };
            emit_exec(statements, stack, SeqStatement::Message(msg), Ghost(st2), Ghost(StmtV::Message(mv)));
            Ok(())
        },
        None => Ok(()),
    }
}

/// Parse mermaid sequence diagram source: its participants and statements,
/// or the error of `sequence_spec`.
pub fn parse_sequence_diagram(source: &str) -> (r: Result<SequenceDiagram, String>)
    ensures
        match r {
            Ok(d) => sequence_spec(source@) matches Ok((ps, ss)) && participants_view(d.participants@)
                == ps && stmts_are(d.statements@, ss),
            Err(e) => sequence_spec(source@) == Err::<(Seq<(Seq<char>, Seq<char>, bool)>, Seq<StmtV>), Seq<char>>(e@),
        },
{
    let src = chars_of(source);
    let ls = lines(src.as_slice());
    let ghost all = after_first(lines_spec(source@));
    let mut participants: Vec<Participant> = Vec::new();
    let mut statements: Vec<SeqStatement> = Vec::new();
    let mut stack: Vec<SeqBlockBuilder> = Vec::new();
    let mut i: usize = 1;
    proof {
        assert(participants_view(participants@) =~= seq![]);
        assert(all.take(0) =~= seq![]);
        assert(views_of(ls@).len() == ls@.len());
    }
    while i < ls.len()
        invariant
            1 <= i,
            views_of(ls@) == lines_spec(source@),
            all == after_first(lines_spec(source@)),
            ls@.len() == lines_spec(source@).len(),
            i <= ls@.len() || i == 1,
            seq_fold(all.take(i - 1)).error is None,
            participants_view(participants@) == seq_fold(all.take(i - 1)).participants,
            stmts_are(statements@, seq_fold(all.take(i - 1)).statements),
            stack_is(stack@, seq_fold(all.take(i - 1)).stack),
        decreases ls@.len() - i,
    {
        proof {
            assert(all.take(i as int).drop_last() =~= all.take(i - 1));
            assert(all.take(i as int).last() == ls@[i as int]@);
        }
        let ghost st = seq_fold(all.take(i - 1));
        match step(&mut participants, &mut statements, &mut stack, ls[i].as_slice(), i + 1, Ghost(st)) {
            Ok(()) => {},
            Err(e) => {
                proof {
                    lemma_error_sticks(all, i as int, all.len() as int);
                    assert(all.take(all.len() as int) =~= all);
                }
                return Err(e);
            },
        }
        i = i + 1;
    }
    proof {
        assert(all.take(i - 1) =~= all);
    }
    let ghost st = seq_fold(all);
    if stack.len() > 0 {
        let ghost m = stack@.len() - 1;
        assert(builder_is(stack@[m], st.stack[m]));
        let mut msg = String::from_str("Unclosed '");
        msg.append(stack[stack.len() - 1].kind.display_name());
        msg.append("' block at end of diagram");
        return Err(msg);
    }
    if participants.len() == 0 {
        return Err(String::from_str("No participants found in sequence diagram"));
    }
    Ok(SequenceDiagram { participants, statements })
}


// ──────────────────────────── participants laws ──────────────────────────────

/// No two participants share an id.
pub open spec fn participant_ids_distinct(ps: Seq<(Seq<char>, Seq<char>, bool)>) -> bool {
    forall|i: int, j: int| 0 <= i < j < ps.len() ==> #[trigger] ps[i].0 != #[trigger] ps[j].0
}

/// Every id a note is placed at is a participant.
pub open spec fn note_refs_declared(ps: Seq<(Seq<char>, Seq<char>, bool)>, pos: NotePosV) -> bool {
    match pos {
        NotePosV::LeftOf(id) => has_participant(ps, id),
        NotePosV::RightOf(id) => has_participant(ps, id),
        NotePosV::Over(ids) => forall|k: int| 0 <= k < ids.len() ==> has_participant(ps, #[trigger] ids[k]),
    }
}

/// The participants a statement refers to are declared: both ends of a
/// message, an activated participant and the participants a note is placed
/// at, at any depth of blocks.
pub open spec fn refs_declared(ps: Seq<(Seq<char>, Seq<char>, bool)>, s: StmtV) -> bool
    decreases s,
{
    match s {
        StmtV::Message(m) => has_participant(ps, m.from) && has_participant(ps, m.to),
        StmtV::Activate(id) => has_participant(ps, id),
        StmtV::Note(n) => note_refs_declared(ps, n.0),
        StmtV::Deactivate(_) => true,
        StmtV::Block(b) => forall|g: int, k: int|
            0 <= g < b.segments.len() && 0 <= k < b.segments[g].statements.len() ==> {
                &&& decreases_to!(s => b.segments[g].statements[k])
                &&& refs_declared(ps, #[trigger] b.segments[g].statements[k])
            },
    }
}

/// Every statement of a list refers to declared participants only.
pub open spec fn all_refs_declared(ps: Seq<(Seq<char>, Seq<char>, bool)>, ss: Seq<StmtV>) -> bool {
    forall|k: int| 0 <= k < ss.len() ==> refs_declared(ps, #[trigger] ss[k])
}

/// What every parser state keeps: distinct participant ids, and every
/// statement, finished or in an open block, refers to declared participants.
pub open spec fn seq_inv(st: SeqState) -> bool {
    &&& participant_ids_distinct(st.participants)
    &&& all_refs_declared(st.participants, st.statements)
    &&& forall|b: int| 0 <= b < st.stack.len() ==> all_refs_declared(st.participants, #[trigger] st.stack[b].current)
    &&& forall|b: int, g: int|
        0 <= b < st.stack.len() && 0 <= g < st.stack[b].segments.len() ==> all_refs_declared(
            st.participants,
            #[trigger] st.stack[b].segments[g].statements,
        )
}

/// `ps2` declares every participant of `ps`.
pub open spec fn declares_all(ps: Seq<(Seq<char>, Seq<char>, bool)>, ps2: Seq<(Seq<char>, Seq<char>, bool)>) -> bool {
    forall|x: Seq<char>| has_participant(ps, x) ==> #[trigger] has_participant(ps2, x)
}

/// Declaring a participant keeps the others, declares it, and keeps ids
/// distinct.
proof fn lemma_add_participant(ps: Seq<(Seq<char>, Seq<char>, bool)>, id: Seq<char>, label: Seq<char>, a: bool)
    requires
        participant_ids_distinct(ps),
    ensures
        declares_all(ps, add_participant(ps, id, label, a)),
        has_participant(add_participant(ps, id, label, a), id),
        participant_ids_distinct(add_participant(ps, id, label, a)),
{
    let p2 = add_participant(ps, id, label, a);
    if !has_participant(ps, id) {
        assert forall|x: Seq<char>| has_participant(ps, x) implies #[trigger] has_participant(p2, x) by {
            let k = choose|k: int| 0 <= k < ps.len() && #[trigger] ps[k].0 == x;
            assert(p2[k] == ps[k]);
        }
        assert(p2[ps.len() as int].0 == id);
        assert forall|i: int, j: int| 0 <= i < j < p2.len() implies #[trigger] p2[i].0 != #[trigger] p2[j].0 by {
            if j == ps.len() {
                assert(p2[i] == ps[i]);
            } else {
                assert(p2[i] == ps[i] && p2[j] == ps[j]);
            }
        }
    }
}

/// Declaring several ids keeps the others, declares them all, and keeps ids
/// distinct.
proof fn lemma_add_ids(ps: Seq<(Seq<char>, Seq<char>, bool)>, ids: Seq<Seq<char>>)
    requires
        participant_ids_distinct(ps),
    ensures
        declares_all(ps, add_ids(ps, ids)),
        forall|k: int| 0 <= k < ids.len() ==> has_participant(add_ids(ps, ids), #[trigger] ids[k]),
        participant_ids_distinct(add_ids(ps, ids)),
    decreases ids.len(),
{
    if ids.len() > 0 {
        let p1 = add_participant(ps, ids[0], ids[0], false);
        lemma_add_participant(ps, ids[0], ids[0], false);
        lemma_add_ids(p1, ids.drop_first());
        assert forall|k: int| 0 <= k < ids.len() implies has_participant(add_ids(ps, ids), #[trigger] ids[k]) by {
            if k > 0 {
                assert(ids[k] == ids.drop_first()[k - 1]);
            }
        }
    }
}

/// A statement whose participants are declared stays so as more are
/// declared.
proof fn lemma_refs_mono(ps: Seq<(Seq<char>, Seq<char>, bool)>, ps2: Seq<(Seq<char>, Seq<char>, bool)>, s: StmtV)
    requires
        declares_all(ps, ps2),
        refs_declared(ps, s),
    ensures
        refs_declared(ps2, s),
    decreases s,
{
    match s {
        StmtV::Block(b) => {
            assert forall|g: int, k: int|
                0 <= g < b.segments.len() && 0 <= k < b.segments[g].statements.len() implies {
                    &&& decreases_to!(s => b.segments[g].statements[k])
                    &&& refs_declared(ps2, #[trigger] b.segments[g].statements[k])
                } by {
                lemma_refs_mono(ps, ps2, b.segments[g].statements[k]);
            }
        },
        StmtV::Note(n) => {
            match n.0 {
                NotePosV::Over(ids) => {
                    assert forall|k: int| 0 <= k < ids.len() implies has_participant(ps2, #[trigger] ids[k]) by {
                        assert(has_participant(ps, ids[k]));
                    }
                },
                _ => {},
            }
        },
        _ => {},
    }
}

/// A state whose statements refer to declared participants stays so as
/// more are declared.
proof fn lemma_inv_mono(st: SeqState, ps2: Seq<(Seq<char>, Seq<char>, bool)>)
    requires
        seq_inv(st),
        declares_all(st.participants, ps2),
        participant_ids_distinct(ps2),
    ensures
        seq_inv(SeqState { participants: ps2, ..st }),
{
    let ps = st.participants;
    assert forall|k: int| 0 <= k < st.statements.len() implies refs_declared(ps2, #[trigger] st.statements[k]) by {
        lemma_refs_mono(ps, ps2, st.statements[k]);
    }
    assert forall|b: int| 0 <= b < st.stack.len() implies all_refs_declared(ps2, #[trigger] st.stack[b].current) by {
        assert forall|k: int| 0 <= k < st.stack[b].current.len() implies refs_declared(ps2, #[trigger] st.stack[b].current[k]) by {
            assert(all_refs_declared(ps, st.stack[b].current));
            lemma_refs_mono(ps, ps2, st.stack[b].current[k]);
        }
    }
    assert forall|b: int, g: int|
        0 <= b < st.stack.len() && 0 <= g < st.stack[b].segments.len() implies all_refs_declared(
            ps2,
            #[trigger] st.stack[b].segments[g].statements,
        ) by {
        let ss = st.stack[b].segments[g].statements;
        assert(all_refs_declared(ps, ss));
        assert forall|k: int| 0 <= k < ss.len() implies refs_declared(ps2, #[trigger] ss[k]) by {
            lemma_refs_mono(ps, ps2, ss[k]);
        }
    }
}

/// Emitting a statement that refers to declared participants keeps the
/// invariant.
proof fn lemma_emit(st: SeqState, s: StmtV)
    requires
        seq_inv(st),
        refs_declared(st.participants, s),
    ensures
        seq_inv(emit(st, s)),
{
    let st2 = emit(st, s);
    if st.stack.len() > 0 {
        let t = st.stack.len() - 1;
        assert forall|b: int| 0 <= b < st2.stack.len() implies all_refs_declared(st.participants, #[trigger] st2.stack[b].current) by {
            if b == t {
                let c = st2.stack[b].current;
                assert(all_refs_declared(st.participants, st.stack[t].current));
                assert forall|k: int| 0 <= k < c.len() implies refs_declared(st.participants, #[trigger] c[k]) by {
                    if k < st.stack[t].current.len() {
                        assert(c[k] == st.stack[t].current[k]);
                    }
                }
            }
        }
        assert forall|b: int, g: int|
            0 <= b < st2.stack.len() && 0 <= g < st2.stack[b].segments.len() implies all_refs_declared(
                st.participants,
                #[trigger] st2.stack[b].segments[g].statements,
            ) by {
            assert(st2.stack[b].segments == st.stack[b].segments);
        }
    } else {
        assert forall|k: int| 0 <= k < st2.statements.len() implies refs_declared(st.participants, #[trigger] st2.statements[k]) by {
            if k < st.statements.len() {
                assert(st2.statements[k] == st.statements[k]);
            }
        }
    }
}

/// Closing the innermost open block keeps the invariant.
proof fn lemma_close_block(st: SeqState)
    requires
        seq_inv(st),
        st.stack.len() > 0,
    ensures
        seq_inv(
            emit(SeqState { stack: st.stack.drop_last(), ..st }, StmtV::Block(finalize_spec(st.stack.last()))),
        ),
{
    let ps = st.participants;
    let top = st.stack.last();
    let blk = finalize_spec(top);
    let s = StmtV::Block(blk);
    let st1 = SeqState { stack: st.stack.drop_last(), ..st };
    assert(seq_inv(st1)) by {
        assert forall|b: int| 0 <= b < st1.stack.len() implies all_refs_declared(ps, #[trigger] st1.stack[b].current) by {
            assert(st1.stack[b] == st.stack[b]);
        }
        assert forall|b: int, g: int|
            0 <= b < st1.stack.len() && 0 <= g < st1.stack[b].segments.len() implies all_refs_declared(
                ps,
                #[trigger] st1.stack[b].segments[g].statements,
            ) by {
            assert(st1.stack[b] == st.stack[b]);
        }
    }
    assert(refs_declared(ps, s)) by {
        assert forall|g: int, k: int|
            0 <= g < blk.segments.len() && 0 <= k < blk.segments[g].statements.len() implies {
                &&& decreases_to!(s => blk.segments[g].statements[k])
                &&& refs_declared(ps, #[trigger] blk.segments[g].statements[k])
            } by {
            let t = st.stack.len() - 1;
            assert(top == st.stack[t]);
            if g < top.segments.len() {
                assert(blk.segments[g] == top.segments[g]);
                assert(all_refs_declared(ps, st.stack[t].segments[g].statements));
                assert(refs_declared(ps, st.stack[t].segments[g].statements[k]));
            } else {
                assert(blk.segments[g].statements == top.current);
                assert(all_refs_declared(ps, st.stack[t].current));
                assert(refs_declared(ps, st.stack[t].current[k]));
            }
            assert(s->Block_0 == blk);
            assert(decreases_to!(s => s->Block_0.segments[g].statements[k]));
        }
    }
    lemma_emit(st1, s);
}

/// Starting a new segment of the innermost open block keeps the invariant.
proof fn lemma_new_segment(st: SeqState, label: Option<Seq<char>>)
    requires
        seq_inv(st),
        st.stack.len() > 0,
    ensures
        seq_inv(SeqState { stack: st.stack.update(st.stack.len() - 1, new_segment_spec(st.stack.last(), label)), ..st }),
{
    let ps = st.participants;
    let t = st.stack.len() - 1;
    let st2 = SeqState { stack: st.stack.update(t, new_segment_spec(st.stack.last(), label)), ..st };
    assert forall|b: int| 0 <= b < st2.stack.len() implies all_refs_declared(ps, #[trigger] st2.stack[b].current) by {
        if b != t {
            assert(st2.stack[b] == st.stack[b]);
        } else {
            assert(st2.stack[b].current =~= Seq::<StmtV>::empty());
        }
    }
    assert forall|b: int, g: int|
        0 <= b < st2.stack.len() && 0 <= g < st2.stack[b].segments.len() implies all_refs_declared(
            ps,
            #[trigger] st2.stack[b].segments[g].statements,
        ) by {
        if b != t {
            assert(st2.stack[b] == st.stack[b]);
        } else if g < st.stack[t].segments.len() {
            assert(st2.stack[b].segments[g] == st.stack[t].segments[g]);
        } else {
            assert(st2.stack[b].segments[g].statements == st.stack[t].current);
            assert(all_refs_declared(ps, st.stack[t].current));
        }
    }
}

/// Declaring a participant keeps the invariant.
proof fn lemma_declare(st: SeqState, id: Seq<char>, label: Seq<char>, a: bool)
    requires
        seq_inv(st),
    ensures
        seq_inv(SeqState { participants: add_participant(st.participants, id, label, a), ..st }),
        has_participant(add_participant(st.participants, id, label, a), id),
        declares_all(st.participants, add_participant(st.participants, id, label, a)),
{
    lemma_add_participant(st.participants, id, label, a);
    lemma_inv_mono(st, add_participant(st.participants, id, label, a));
}

/// Each line keeps the invariant.
proof fn lemma_seq_step_inv(st: SeqState, raw: Seq<char>, n: nat)
    requires
        seq_inv(st),
    ensures
        seq_inv(seq_step(st, raw, n)),
{
    let line = trim_spec(raw);
    if st.error is Some || line.len() == 0 || starts_with_spec(line, percent2()) {
    } else if starts_with_spec(line, participant_word()) || starts_with_spec(line, actor_word()) {
        let is_actor = starts_with_spec(line, actor_word());
        let rest = trim_spec(
            if is_actor {
                line.skip(6)
            } else {
                line.skip(12)
            },
        );
        let id = match find_spec(rest, as_word()) {
            Some(p) => trim_spec(rest.take(p)),
            None => rest,
        };
        let label = match find_spec(rest, as_word()) {
            Some(p) => trim_spec(rest.skip(p + 4)),
            None => rest,
        };
        lemma_declare(st, id, label, is_actor);
    } else {
        let fw = first_word(line);
        match kind_of_keyword(fw) {
            Some(kind) => {
                let st2 = seq_step(st, raw, n);
                let t = st.stack.len() as int;
                assert forall|b: int| 0 <= b < st2.stack.len() implies all_refs_declared(st.participants, #[trigger] st2.stack[b].current) by {
                    if b < t {
                        assert(st2.stack[b] == st.stack[b]);
                    }
                }
                assert forall|b: int, g: int|
                    0 <= b < st2.stack.len() && 0 <= g < st2.stack[b].segments.len() implies all_refs_declared(
                        st.participants,
                        #[trigger] st2.stack[b].segments[g].statements,
                    ) by {
                    assert(b < t);
                    assert(st2.stack[b] == st.stack[b]);
                }
            },
            None => if fw == "else"@ || fw == "and"@ {
                if st.stack.len() > 0 {
                    let l = trim_spec(line.skip(if fw == "else"@ { 4 } else { 3 }));
                    let label = if l.len() == 0 {
                        None
                    } else {
                        Some(l)
                    };
                    lemma_new_segment(st, label);
                }
            } else if fw == "end"@ {
                if st.stack.len() > 0 {
                    lemma_close_block(st);
                }
            } else if fw == "activate"@ {
                let id = trim_spec(line.skip(8));
                if id.len() > 0 {
                    lemma_declare(st, id, id, false);
                    let st1 = SeqState { participants: add_participant(st.participants, id, id, false), ..st };
                    lemma_emit(st1, StmtV::Activate(id));
                }
            } else if fw == "deactivate"@ {
                let id = trim_spec(line.skip(10));
                if id.len() > 0 {
                    lemma_emit(st, StmtV::Deactivate(id));
                }
            } else {
                match note_spec(line) {
                    Some(note) => {
                        let ps = match note.0 {
                            NotePosV::LeftOf(id) => add_participant(st.participants, id, id, false),
                            NotePosV::RightOf(id) => add_participant(st.participants, id, id, false),
                            NotePosV::Over(ids) => add_ids(st.participants, ids),
                        };
                        match note.0 {
                            NotePosV::LeftOf(id) => lemma_add_participant(st.participants, id, id, false),
                            NotePosV::RightOf(id) => lemma_add_participant(st.participants, id, id, false),
                            NotePosV::Over(ids) => lemma_add_ids(st.participants, ids),
                        }
                        lemma_inv_mono(st, ps);
                        let st1 = SeqState { participants: ps, ..st };
                        assert(refs_declared(ps, StmtV::Note(note)));
                        lemma_emit(st1, StmtV::Note(note));
                    },
                    None => match try_arrows(line, 0) {
                        Some(m) => {
                            let p1 = add_participant(st.participants, m.from, m.from, false);
                            let p2 = add_participant(p1, m.to, m.to, false);
                            lemma_add_participant(st.participants, m.from, m.from, false);
                            lemma_add_participant(p1, m.to, m.to, false);
                            assert(declares_all(st.participants, p2));
                            lemma_inv_mono(st, p2);
                            let st1 = SeqState { participants: p2, ..st };
                            assert(refs_declared(p2, StmtV::Message(m)));
                            lemma_emit(st1, StmtV::Message(m));
                        },
                        None => {},
                    },
                }
            },
        }
    }
}

/// The invariant holds after any lines.
proof fn lemma_seq_fold_inv(ls: Seq<Seq<char>>)
    ensures
        seq_inv(seq_fold(ls)),
    decreases ls.len(),
{
    if ls.len() > 0 {
        lemma_seq_fold_inv(ls.drop_last());
        lemma_seq_step_inv(seq_fold(ls.drop_last()), ls.last(), (ls.len() + 1) as nat);
    }
}

/// The participants of a parsed sequence diagram have distinct ids, and
/// every statement, at any depth of blocks, refers only to participants:
/// the ends of each message, each activated participant and the
/// participants each note is placed at.
pub proof fn law_sequence_participants(source: Seq<char>)
    requires
        sequence_spec(source) is Ok,
    ensures
        ({
            let (ps, stmts) = sequence_spec(source)->Ok_0;
            &&& participant_ids_distinct(ps)
            &&& all_refs_declared(ps, stmts)
        }),
{
    lemma_seq_fold_inv(after_first(lines_spec(source)));
}

/// `a` is the start of `b`.
pub open spec fn is_prefix_of<T>(a: Seq<T>, b: Seq<T>) -> bool {
    a.len() <= b.len() && b.take(a.len() as int) == a
}

proof fn lemma_prefix_trans<T>(a: Seq<T>, b: Seq<T>, c: Seq<T>)
    requires
        is_prefix_of(a, b),
        is_prefix_of(b, c),
    ensures
        is_prefix_of(a, c),
{
    assert(c.take(a.len() as int) =~= c.take(b.len() as int).take(a.len() as int));
}

/// Declaring participants only appends to the list.
proof fn lemma_add_ids_prefix(ps: Seq<(Seq<char>, Seq<char>, bool)>, ids: Seq<Seq<char>>)
    ensures
        is_prefix_of(ps, add_ids(ps, ids)),
    decreases ids.len(),
{
    if ids.len() > 0 {
        let p1 = add_participant(ps, ids[0], ids[0], false);
        assert(is_prefix_of(ps, p1)) by {
            assert(p1.take(ps.len() as int) =~= ps);
        }
        lemma_add_ids_prefix(p1, ids.drop_first());
        lemma_prefix_trans(ps, p1, add_ids(p1, ids.drop_first()));
    } else {
        assert(ps.take(ps.len() as int) =~= ps);
    }
}

/// Declaring one participant only appends to the list.
proof fn lemma_add_prefix(ps: Seq<(Seq<char>, Seq<char>, bool)>, id: Seq<char>, label: Seq<char>, a: bool)
    ensures
        is_prefix_of(ps, add_participant(ps, id, label, a)),
{
    assert(add_participant(ps, id, label, a).take(ps.len() as int) =~= ps);
}

/// A line only appends participants.
proof fn lemma_step_prefix(st: SeqState, raw: Seq<char>, n: nat)
    ensures
        is_prefix_of(st.participants, seq_step(st, raw, n).participants),
{
    let ps = st.participants;
    let line = trim_spec(raw);
    assert(ps.take(ps.len() as int) =~= ps);
    if st.error is Some || line.len() == 0 || starts_with_spec(line, percent2()) {
    } else if starts_with_spec(line, participant_word()) || starts_with_spec(line, actor_word()) {
        let is_actor = starts_with_spec(line, actor_word());
        let rest = trim_spec(
            if is_actor {
                line.skip(6)
            } else {
                line.skip(12)
            },
        );
        let id = match find_spec(rest, as_word()) {
            Some(p) => trim_spec(rest.take(p)),
            None => rest,
        };
        let label = match find_spec(rest, as_word()) {
            Some(p) => trim_spec(rest.skip(p + 4)),
            None => rest,
        };
        lemma_add_prefix(ps, id, label, is_actor);
    } else {
        let fw = first_word(line);
        if kind_of_keyword(fw) is None && fw != "else"@ && fw != "and"@ && fw != "end"@ {
            if fw == "activate"@ {
                let id = trim_spec(line.skip(8));
                lemma_add_prefix(ps, id, id, false);
            } else if fw != "deactivate"@ {
                match note_spec(line) {
                    Some(note) => {
                        match note.0 {
                            NotePosV::LeftOf(id) => lemma_add_prefix(ps, id, id, false),
                            NotePosV::RightOf(id) => lemma_add_prefix(ps, id, id, false),
                            NotePosV::Over(ids) => lemma_add_ids_prefix(ps, ids),
                        }
                    },
                    None => match try_arrows(line, 0) {
                        Some(m) => {
                            let p1 = add_participant(ps, m.from, m.from, false);
                            lemma_add_prefix(ps, m.from, m.from, false);
                            lemma_add_prefix(p1, m.to, m.to, false);
                            lemma_prefix_trans(ps, p1, add_participant(p1, m.to, m.to, false));
                        },
                        None => {},
                    },
                }
            }
        }
    }
}

/// The participants after the first `k` lines start the participants after
/// all of them.
proof fn lemma_fold_prefix(ls: Seq<Seq<char>>, k: int)
    requires
        0 <= k <= ls.len(),
    ensures
        is_prefix_of(seq_fold(ls.take(k)).participants, seq_fold(ls).participants),
    decreases ls.len() - k,
{
    if k == ls.len() {
        assert(ls.take(k) =~= ls);
        let ps = seq_fold(ls).participants;
        assert(ps.take(ps.len() as int) =~= ps);
    } else {
        lemma_fold_prefix(ls, k + 1);
        assert(ls.take(k + 1).drop_last() =~= ls.take(k));
        lemma_step_prefix(seq_fold(ls.take(k)), ls.take(k + 1).last(), (k + 2) as nat);
        lemma_prefix_trans(
            seq_fold(ls.take(k)).participants,
            seq_fold(ls.take(k + 1)).participants,
            seq_fold(ls).participants,
        );
    }
}

/// Participants come in the order of their first mention: the participants
/// that the first `k` lines after the header declare or mention, in order,
/// start the diagram's list, and every later one is first mentioned on a
/// later line.
pub proof fn law_participants_in_mention_order(source: Seq<char>, k: int)
    requires
        sequence_spec(source) is Ok,
        0 <= k <= after_first(lines_spec(source)).len(),
    ensures
        is_prefix_of(
            seq_fold(after_first(lines_spec(source)).take(k)).participants,
            sequence_spec(source)->Ok_0.0,
        ),
{
    lemma_fold_prefix(after_first(lines_spec(source)), k);
}

// ─────────────────────────────── layout slots ────────────────────────────────

/// The vertical slots one statement takes: a message or a note one, an
/// activation none, a block one for its header, those of its segments and
/// one for its end.
pub open spec fn stmt_slots(s: SeqStatement) -> nat
    decreases s, 1nat,
{
    match s {
        SeqStatement::Message(_) => 1,
        SeqStatement::Note(_) => 1,
        SeqStatement::Activate(_) => 0,
        SeqStatement::Deactivate(_) => 0,
        SeqStatement::Block(b) => {
            proof {
                assert(decreases_to!(s => b));
                assert(decreases_to!(b => b.segments));
                assert(decreases_to!(b.segments => b.segments@));
            }
            2 + segments_slots(b.segments@)
        },
    }
}

/// The slots of the statements of every segment of `gs`.
pub open spec fn segments_slots(gs: Seq<SeqBlockSegment>) -> nat
    decreases gs, 0nat,
{
    if gs.len() == 0 {
        0
    } else {
        let g = gs.last();
        proof {
            assert(decreases_to!(gs => gs[gs.len() - 1]));
            assert(decreases_to!(g => g.statements));
            assert(decreases_to!(g.statements => g.statements@));
        }
        segments_slots(gs.drop_last()) + statements_slots(g.statements@)
    }
}

/// The slots of a list of statements: the sum of theirs.
pub open spec fn statements_slots(ss: Seq<SeqStatement>) -> nat
    decreases ss, 0nat,
{
    if ss.len() == 0 {
        0
    } else {
        proof {
            assert(decreases_to!(ss => ss[ss.len() - 1]));
        }
        statements_slots(ss.drop_last()) + stmt_slots(ss.last())
    }
}

proof fn lemma_statements_slots_prefix(ss: Seq<SeqStatement>, i: int)
    requires
        0 <= i <= ss.len(),
    ensures
        statements_slots(ss.take(i)) <= statements_slots(ss),
    decreases ss.len() - i,
{
    if i < ss.len() {
        lemma_statements_slots_prefix(ss, i + 1);
        assert(ss.take(i + 1).drop_last() =~= ss.take(i));
    } else {
        assert(ss.take(i) =~= ss);
    }
}

proof fn lemma_segments_slots_prefix(gs: Seq<SeqBlockSegment>, i: int)
    requires
        0 <= i <= gs.len(),
    ensures
        segments_slots(gs.take(i)) <= segments_slots(gs),
    decreases gs.len() - i,
{
    if i < gs.len() {
        lemma_segments_slots_prefix(gs, i + 1);
        assert(gs.take(i + 1).drop_last() =~= gs.take(i));
    } else {
        assert(gs.take(i) =~= gs);
    }
}

/// Count the vertical slots that `statements` take when laid out.
pub fn count_statement_slots(statements: &[SeqStatement]) -> (r: usize)
    requires
        statements_slots(statements@) <= usize::MAX,
    ensures
        r == statements_slots(statements@),
    decreases statements@,
{
    let ghost ss = statements@;
    let mut count: usize = 0;
    let mut i: usize = 0;
    assert(ss.take(0) =~= seq![]);
    while i < statements.len()
        invariant
            ss == statements@,
            i <= ss.len(),
            statements_slots(ss) <= usize::MAX,
            count == statements_slots(ss.take(i as int)),
        decreases ss.len() - i,
    {
        proof {
            assert(ss.take(i + 1).drop_last() =~= ss.take(i as int));
            assert(ss.take(i + 1).last() == ss[i as int]);
            lemma_statements_slots_prefix(ss, i + 1);
            assert(statements_slots(ss.take(i + 1)) == statements_slots(ss.take(i as int)) + stmt_slots(ss[i as int]));
        }
        match &statements[i] {
            SeqStatement::Message(_) => {
                count = count + 1;
            },
            SeqStatement::Note(_) => {
                count = count + 1;
            },
            SeqStatement::Activate(_) => {},
            SeqStatement::Deactivate(_) => {},
            SeqStatement::Block(block) => {
                let ghost gs = block.segments@;
                assert(stmt_slots(ss[i as int]) == 2 + segments_slots(gs));
                count = count + 1;
                let mut j: usize = 0;
                assert(gs.take(0) =~= seq![]);
                while j < block.segments.len()
                    invariant
                        gs == block.segments@,
                        j <= gs.len(),
                        statements_slots(ss.take(i as int)) + 2 + segments_slots(gs) <= usize::MAX,
                        count == statements_slots(ss.take(i as int)) + 1 + segments_slots(gs.take(j as int)),
                        decreases_to!(statements@ => gs),
                    decreases gs.len() - j,
                {
                    let seg = &block.segments[j];
                    proof {
                        assert(gs.take(j + 1).drop_last() =~= gs.take(j as int));
                        lemma_segments_slots_prefix(gs, j + 1);
                        assert(decreases_to!(gs => gs[j as int]));
                        assert(decreases_to!(gs[j as int] => gs[j as int].statements));
                        assert(decreases_to!(gs[j as int].statements => gs[j as int].statements@));
                    }
                    let c = count_statement_slots(seg.statements.as_slice());
                    count = count + c;
                    j = j + 1;
                }
                assert(gs.take(j as int) =~= gs);
                count = count + 1;
            },
        }
        i = i + 1;
    }
    assert(ss.take(i as int) =~= ss);
    count
}

} // verus!
