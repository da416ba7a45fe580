//! The block segmenter: turns the markdown parser's event stream into pieces.
//!
//! Prose paragraphs are sentence-split; headings, list items, table rows, code blocks and HTML
//! blocks are single pieces. The parser itself is pulldown-cmark; what the segmenter sees of
//! its output is the library's own `MdItem` list, and everything after the parse is verified
//! against the state machine `step` below.

use crate::segment::{
    blen, boff, fits, is_ws, is_ws_exec, normalize_chars, sentence_spans, sentences,
    spec_normalize_ws, utf8_len, Block, Piece,
};
use crate::text::{chars_of, push_char, push_str, string_of};
use pulldown_cmark::{Event, Options, Tag, TagEnd};
use vstd::prelude::*;

verus! {

broadcast use vstd::string::group_string_axioms;

// ---------- the parser's events, as the segmenter sees them ----------

/// The block tags the segmenter tells apart; every other tag is `Other`.
#[derive(Debug, Clone, Copy, PartialEq, Eq, Structural)]
pub enum MdTag {
    Paragraph,
    /// Heading with its level (1 to 6).
    Heading(u8),
    List,
    Item,
    TableHead,
    TableRow,
    TableCell,
    CodeBlock,
    HtmlBlock,
    Other,
}

/// One parser event.
#[derive(Debug, Clone)]
pub enum MdEvent {
    Start(MdTag),
    End(MdTag),
    /// Text, inline code, math and inline or block HTML: the event's text.
    Text(String),
    /// A soft or hard line break.
    Break,
    /// Footnote references, task-list markers and rules.
    Other,
}

/// An event with its byte range in the source.
#[derive(Debug, Clone)]
pub struct MdItem {
    pub event: MdEvent,
    pub start: usize,
    pub end: usize,
}

#[verifier::external_type_specification]
#[verifier::external_body]
pub struct ExEvent<'a>(pulldown_cmark::Event<'a>);

#[verifier::external_type_specification]
#[verifier::external_body]
pub struct ExTag<'a>(pulldown_cmark::Tag<'a>);

#[verifier::external_type_specification]
#[verifier::external_body]
pub struct ExTagEnd(pulldown_cmark::TagEnd);

/// The events pulldown-cmark reports for `src` (tables, strikethrough, task lists and
/// footnotes enabled), each with its source range.
pub uninterp spec fn parsed_markdown(src: Seq<char>) -> Seq<MdItem>;

/// `pulldown_cmark::Tag` as an `MdTag`: one arm per variant the segmenter tells apart.
#[verifier::external_body]
fn md_tag(t: Tag) -> MdTag {
    match t {
        Tag::Paragraph => MdTag::Paragraph,
        Tag::Heading { level, .. } => MdTag::Heading(level as u8),
        Tag::List(_) => MdTag::List,
        Tag::Item => MdTag::Item,
        Tag::TableHead => MdTag::TableHead,
        Tag::TableRow => MdTag::TableRow,
        Tag::TableCell => MdTag::TableCell,
        Tag::CodeBlock(_) => MdTag::CodeBlock,
        Tag::HtmlBlock => MdTag::HtmlBlock,
        _ => MdTag::Other,
    }
}

/// `pulldown_cmark::TagEnd` as an `MdTag`: one arm per variant the segmenter tells apart.
#[verifier::external_body]
fn md_tag_end(t: TagEnd) -> MdTag {
    match t {
        TagEnd::Paragraph => MdTag::Paragraph,
        TagEnd::Heading(level) => MdTag::Heading(level as u8),
        TagEnd::List(_) => MdTag::List,
        TagEnd::Item => MdTag::Item,
        TagEnd::TableHead => MdTag::TableHead,
        TagEnd::TableRow => MdTag::TableRow,
        TagEnd::TableCell => MdTag::TableCell,
        TagEnd::CodeBlock => MdTag::CodeBlock,
        TagEnd::HtmlBlock => MdTag::HtmlBlock,
        _ => MdTag::Other,
    }
}

/// `pulldown_cmark::Event` as an `MdEvent`, the text of a text-like event copied out.
#[verifier::external_body]
fn md_event(e: Event) -> MdEvent {
    match e {
        Event::Start(t) => MdEvent::Start(md_tag(t)),
        Event::End(t) => MdEvent::End(md_tag_end(t)),
        Event::Text(s) | Event::Code(s) | Event::InlineMath(s) | Event::DisplayMath(s) => MdEvent::Text(s.to_string()),
        Event::Html(s) | Event::InlineHtml(s) => MdEvent::Text(s.to_string()),
        Event::SoftBreak | Event::HardBreak => MdEvent::Break,
        Event::FootnoteReference(_) | Event::TaskListMarker(_) | Event::Rule => MdEvent::Other,
    }
}

/// `Parser::new_ext(src, opts).into_offset_iter()` with tables, strikethrough, task lists and
/// footnotes: every event with its byte range. The result is named (`parsed_markdown`), not
/// described: it is CommonMark parsing as pulldown-cmark implements it.
#[verifier::external_body]
fn markdown_events(src: &str) -> (r: Vec<MdItem>)
    ensures
        r@ == parsed_markdown(src@),
{
    let opts = Options::ENABLE_TABLES | Options::ENABLE_STRIKETHROUGH | Options::ENABLE_TASKLISTS | Options::ENABLE_FOOTNOTES;
    let mut out = Vec::new();
    for (e, r) in pulldown_cmark::Parser::new_ext(src, opts).into_offset_iter() {
        out.push(MdItem { event: md_event(e), start: r.start, end: r.end });
    }
    out
}

// ---------- the segmenter's state, as mathematics ----------

/// A run of inline text with its source range.
pub struct SInline {
    pub text: Seq<char>,
    pub start: int,
    pub end: int,
}

/// An open block on the segmenter's stack.
pub enum SFrame {
    /// Prose paragraph, sentence-split when it ends.
    Para(Seq<SInline>),
    /// Heading: level, inlines, range.
    Heading(u8, Seq<SInline>, int, int),
    /// List item: its direct inlines, range and list depth.
    Item(Seq<SInline>, int, int, u8),
    /// Table row: cell texts and range.
    Row(Seq<Seq<char>>, int, int),
    /// The first paragraph of a loose item: its inlines go to the enclosing item.
    ItemPara,
    /// An item already emitted (a nested list began); later inlines are dropped.
    ItemDone,
    /// Code or HTML, already emitted whole.
    Opaque,
}

/// A piece as mathematics.
pub struct PieceView {
    pub block: Block,
    pub text: Seq<char>,
    pub start: int,
    pub end: int,
    pub section: Option<Seq<char>>,
    pub depth: u8,
}

impl View for Piece {
    type V = PieceView;

    open spec fn view(&self) -> PieceView {
        PieceView {
            block: self.block,
            text: self.text@,
            start: self.start as int,
            end: self.end as int,
            section: match self.section {
                Some(s) => Some(s@),
                None => None,
            },
            depth: self.depth,
        }
    }
}

/// The segmenter's state between events.
pub struct SState {
    pub out: Seq<PieceView>,
    /// The text of the last heading, if any.
    pub section: Option<Seq<char>>,
    pub list_depth: u8,
    pub in_table_head: bool,
    pub stack: Seq<SFrame>,
}

pub open spec fn init_state() -> SState {
    SState {
        out: Seq::empty(),
        section: None,
        list_depth: 0,
        in_table_head: false,
        stack: Seq::empty(),
    }
}

// ---------- text helpers ----------

/// Number of whitespace characters that `s` begins with.
pub open spec fn lead_ws(s: Seq<char>) -> nat
    decreases s.len(),
{
    if s.len() > 0 && is_ws(s[0]) {
        lead_ws(s.drop_first()) + 1
    } else {
        0
    }
}

/// Number of whitespace characters that `s` ends with.
pub open spec fn trail_ws(s: Seq<char>) -> nat
    decreases s.len(),
{
    if s.len() > 0 && is_ws(s.last()) {
        trail_ws(s.drop_last()) + 1
    } else {
        0
    }
}

/// `str::trim_end`.
pub open spec fn trim_end_ws(s: Seq<char>) -> Seq<char> {
    s.take(s.len() - trail_ws(s))
}

/// `str::trim`.
pub open spec fn trim_ws(s: Seq<char>) -> Seq<char> {
    if lead_ws(s) >= s.len() {
        Seq::empty()
    } else {
        s.subrange(lead_ws(s) as int, s.len() - trail_ws(s))
    }
}

/// Every character of `s` is whitespace (`s.trim().is_empty()`).
pub open spec fn ws_only(s: Seq<char>) -> bool {
    forall|i: int| 0 <= i < s.len() ==> is_ws(#[trigger] s[i])
}

/// The inline texts, concatenated.
pub open spec fn join_texts(inl: Seq<SInline>) -> Seq<char>
    decreases inl.len(),
{
    if inl.len() == 0 {
        Seq::empty()
    } else {
        join_texts(inl.drop_last()) + inl.last().text
    }
}

/// Table cells, each trimmed, joined with ` | `.
pub open spec fn join_cells(cells: Seq<Seq<char>>) -> Seq<char>
    decreases cells.len(),
{
    if cells.len() == 0 {
        Seq::empty()
    } else if cells.len() == 1 {
        trim_ws(cells[0])
    } else {
        join_cells(cells.drop_last()) + seq![' ', '|', ' '] + trim_ws(cells.last())
    }
}

/// The character index of `t` at which byte `b` begins (`t.len()` for its end), if `b` is a
/// character boundary of `t`.
pub open spec fn char_at_byte(t: Seq<char>, b: int) -> Option<int> {
    if exists|a: int| 0 <= a <= t.len() && boff(t, a) == b {
        Some(choose|a: int| 0 <= a <= t.len() && boff(t, a) == b)
    } else {
        None
    }
}

/// `src[start..end]` on the source's bytes, when both ends are character boundaries and in
/// order (`str::get`).
pub open spec fn src_slice(src: Seq<char>, start: int, end: int) -> Option<Seq<char>> {
    match (char_at_byte(src, start), char_at_byte(src, end)) {
        (Some(a), Some(b)) => if a <= b {
            Some(src.subrange(a, b))
        } else {
            None
        },
        _ => None,
    }
}

// ---------- the segmenter's steps ----------

/// Normalize whitespace and, unless nothing is left, append a piece.
pub open spec fn emit(st: SState, block: Block, text: Seq<char>, start: int, end: int, depth: u8) -> SState {
    let n = spec_normalize_ws(text);
    if n.len() == 0 {
        st
    } else {
        SState {
            out: st.out.push(PieceView { block, text: n, start, end, section: st.section, depth }),
            ..st
        }
    }
}

/// Append a piece with its text as given, unless it is all whitespace.
pub open spec fn emit_raw(st: SState, block: Block, text: Seq<char>, start: int, end: int) -> SState {
    if ws_only(text) {
        st
    } else {
        SState {
            out: st.out.push(PieceView { block, text, start, end, section: st.section, depth: 0 }),
            ..st
        }
    }
}

/// Attach text to the innermost frame that collects inlines, looking at `stack[..k]` from the top.
pub open spec fn push_inline_from(stack: Seq<SFrame>, k: int, text: Seq<char>, start: int, end: int) -> Seq<SFrame>
    decreases k,
{
    if k <= 0 || k > stack.len() {
        stack
    } else {
        let inl = SInline { text, start, end };
        match stack[k - 1] {
            SFrame::Para(v) => stack.update(k - 1, SFrame::Para(v.push(inl))),
            SFrame::Heading(l, v, a, b) => stack.update(k - 1, SFrame::Heading(l, v.push(inl), a, b)),
            SFrame::Item(v, a, b, d) => stack.update(k - 1, SFrame::Item(v.push(inl), a, b, d)),
            SFrame::Row(cells, a, b) => if cells.len() > 0 {
                stack.update(k - 1, SFrame::Row(cells.update(cells.len() - 1, cells.last() + text), a, b))
            } else {
                stack
            },
            SFrame::ItemPara => push_inline_from(stack, k - 1, text, start, end),
            SFrame::ItemDone => stack,
            SFrame::Opaque => stack,
        }
    }
}

pub open spec fn push_inline(st: SState, text: Seq<char>, start: int, end: int) -> SState {
    SState { stack: push_inline_from(st.stack, st.stack.len() as int, text, start, end), ..st }
}

/// Index of the innermost open or emitted list item in `stack[..k]`.
pub open spec fn last_item(stack: Seq<SFrame>, k: int) -> Option<int>
    decreases k,
{
    if k <= 0 || k > stack.len() {
        None
    } else if stack[k - 1] is Item || stack[k - 1] is ItemDone {
        Some(k - 1)
    } else {
        last_item(stack, k - 1)
    }
}

/// Emit the innermost open item (its text, from its start to the end of its last direct
/// inline) and mark it done.
pub open spec fn flush_item(st: SState) -> SState {
    match last_item(st.stack, st.stack.len() as int) {
        Some(i) => match st.stack[i] {
            SFrame::Item(inl, rs, re, depth) => {
                let st2 = SState { stack: st.stack.update(i, SFrame::ItemDone), ..st };
                let end = if inl.len() == 0 { rs } else { inl.last().end };
                emit(st2, Block::Li, join_texts(inl), rs, if end >= rs { end } else { rs }, depth)
            },
            _ => st,
        },
        None => st,
    }
}

/// Source offset of each character of an inline: its start plus the character's byte offset
/// in the text, capped at the inline's source length (text that is not a literal slice of the
/// source, such as inline code, maps into its range).
pub open spec fn inline_map(i: SInline) -> Seq<int> {
    let rlen = if i.end > i.start { i.end - i.start } else { 0 };
    Seq::new(i.text.len(), |q: int| i.start + if boff(i.text, q) < rlen { boff(i.text, q) as int } else { rlen })
}

/// Source offsets of the characters of `join_texts(inl)`.
pub open spec fn per_char(inl: Seq<SInline>) -> Seq<int>
    decreases inl.len(),
{
    if inl.len() == 0 {
        Seq::empty()
    } else {
        per_char(inl.drop_last()) + inline_map(inl.last())
    }
}

/// Emit the sentences `rs` (character ranges of `c`, whose characters map to `m`).
pub open spec fn emit_sentences(st: SState, c: Seq<char>, m: Seq<int>, rs: Seq<(int, int)>) -> SState
    decreases rs.len(),
{
    if rs.len() == 0 {
        st
    } else {
        let st1 = emit_sentences(st, c, m, rs.drop_last());
        let a = rs.last().0;
        let b = rs.last().1;
        let sub = c.subrange(a, b);
        if lead_ws(sub) >= sub.len() {
            st1
        } else {
            let a2 = a + lead_ws(sub);
            let b2 = b - trail_ws(sub);
            let s = m[a2];
            let e = if m[b2] >= s { m[b2] } else { s };
            emit(st1, Block::Para, c.subrange(a2, b2), s, e, 0)
        }
    }
}

/// Sentence-split a paragraph and map each sentence back to its source range.
pub open spec fn flush_prose(st: SState, inl: Seq<SInline>) -> SState {
    let c = join_texts(inl);
    let end_src = if inl.len() == 0 { 0 } else { inl.last().end };
    emit_sentences(st, c, per_char(inl).push(end_src), sentences(c, 0, 0))
}

pub open spec fn push_frame(st: SState, f: SFrame) -> SState {
    SState { stack: st.stack.push(f), ..st }
}

pub open spec fn pop_frame(st: SState) -> SState {
    SState { stack: st.stack.drop_last(), ..st }
}

/// Close the open table row and emit its cells.
pub open spec fn end_row(st: SState) -> SState {
    if st.stack.len() == 0 {
        st
    } else {
        let st2 = pop_frame(st);
        match st.stack.last() {
            SFrame::Row(cells, a, b) => emit(st2, Block::Row, join_cells(cells), a, b, 0),
            _ => st2,
        }
    }
}

/// Code or HTML: the source text of the block, trailing whitespace trimmed, as one piece.
pub open spec fn raw_block(st: SState, src: Seq<char>, block: Block, s: int, e: int) -> SState {
    let text = match src_slice(src, s, e) {
        Some(t) => trim_end_ws(t),
        None => Seq::empty(),
    };
    push_frame(emit_raw(st, block, text, s, e), SFrame::Opaque)
}

pub open spec fn start_tag(st: SState, src: Seq<char>, t: MdTag, s: int, e: int) -> SState {
    match t {
        MdTag::Paragraph => if st.stack.len() > 0 && (st.stack.last() matches SFrame::Item(v, _, _, _) && v.len() == 0) {
            push_frame(st, SFrame::ItemPara)
        } else {
            push_frame(st, SFrame::Para(Seq::empty()))
        },
        MdTag::Heading(l) => push_frame(st, SFrame::Heading(l, Seq::empty(), s, e)),
        MdTag::List => {
            let st2 = flush_item(st);
            SState { list_depth: if st2.list_depth == 255 { 0 } else { (st2.list_depth + 1) as u8 }, ..st2 }
        },
        MdTag::Item => push_frame(st, SFrame::Item(Seq::empty(), s, e, st.list_depth)),
        MdTag::TableHead => push_frame(SState { in_table_head: true, ..st }, SFrame::Row(Seq::empty(), s, e)),
        MdTag::TableRow => push_frame(st, SFrame::Row(Seq::empty(), s, e)),
        MdTag::TableCell => if st.stack.len() > 0 && st.stack.last() is Row {
            match st.stack.last() {
                SFrame::Row(cells, a, b) => SState {
                    stack: st.stack.update(st.stack.len() - 1, SFrame::Row(cells.push(Seq::empty()), a, b)),
                    ..st
                },
                _ => st,
            }
        } else {
            st
        },
        MdTag::CodeBlock => raw_block(st, src, Block::Code, s, e),
        MdTag::HtmlBlock => raw_block(st, src, Block::Html, s, e),
        MdTag::Other => st,
    }
}

pub open spec fn end_tag(st: SState, t: MdTag) -> SState {
    match t {
        MdTag::Paragraph => if st.stack.len() == 0 {
            st
        } else {
            let st2 = pop_frame(st);
            match st.stack.last() {
                SFrame::Para(inl) => flush_prose(st2, inl),
                SFrame::ItemPara => flush_item(st2),
                _ => st2,
            }
        },
        MdTag::Heading(_) => if st.stack.len() == 0 {
            st
        } else {
            let st2 = pop_frame(st);
            match st.stack.last() {
                SFrame::Heading(l, inl, a, b) => {
                    let text = join_texts(inl);
                    emit(SState { section: Some(text), ..st2 }, Block::Heading, text, a, b, l)
                },
                _ => st2,
            }
        },
        MdTag::List => SState { list_depth: if st.list_depth > 0 { (st.list_depth - 1) as u8 } else { 0 }, ..st },
        MdTag::Item => {
            let st2 = flush_item(st);
            if st2.stack.len() == 0 { st2 } else { pop_frame(st2) }
        },
        MdTag::TableHead => end_row(SState { in_table_head: false, ..st }),
        MdTag::TableRow => end_row(st),
        MdTag::CodeBlock => if st.stack.len() == 0 { st } else { pop_frame(st) },
        MdTag::HtmlBlock => if st.stack.len() == 0 { st } else { pop_frame(st) },
        MdTag::TableCell => st,
        MdTag::Other => st,
    }
}

/// What one event does to the segmenter's state.
pub open spec fn step(st: SState, src: Seq<char>, it: MdItem) -> SState {
    let s = it.start as int;
    let e = it.end as int;
    match it.event {
        MdEvent::Start(t) => start_tag(st, src, t, s, e),
        MdEvent::End(t) => end_tag(st, t),
        MdEvent::Text(t) => push_inline(st, t@, s, e),
        MdEvent::Break => push_inline(st, seq![' '], s, e),
        MdEvent::Other => st,
    }
}

/// The state after the events `evs`, in order.
pub open spec fn run(src: Seq<char>, evs: Seq<MdItem>) -> SState
    decreases evs.len(),
{
    if evs.len() == 0 {
        init_state()
    } else {
        step(run(src, evs.drop_last()), src, evs.last())
    }
}

/// The pieces of a document whose parse is `evs`, in document order.
pub open spec fn spec_segment(src: Seq<char>, evs: Seq<MdItem>) -> Seq<PieceView> {
    run(src, evs).out
}


// ---------- the segmenter ----------

struct Inline {
    text: String,
    start: usize,
    end: usize,
}

enum Frame {
    Para(Vec<Inline>),
    Heading(u8, Vec<Inline>, usize, usize),
    Item(Vec<Inline>, usize, usize, u8),
    Row(Vec<String>, usize, usize),
    ItemPara,
    ItemDone,
    Opaque,
}

spec fn inline_v(i: Inline) -> SInline {
    SInline { text: i.text@, start: i.start as int, end: i.end as int }
}

spec fn inlines_v(v: Seq<Inline>) -> Seq<SInline> {
    v.map_values(|i: Inline| inline_v(i))
}

spec fn cells_v(v: Seq<String>) -> Seq<Seq<char>> {
    v.map_values(|c: String| c@)
}

spec fn frame_v(f: Frame) -> SFrame {
    match f {
        Frame::Para(v) => SFrame::Para(inlines_v(v@)),
        Frame::Heading(l, v, a, b) => SFrame::Heading(l, inlines_v(v@), a as int, b as int),
        Frame::Item(v, a, b, d) => SFrame::Item(inlines_v(v@), a as int, b as int, d),
        Frame::Row(c, a, b) => SFrame::Row(cells_v(c@), a as int, b as int),
        Frame::ItemPara => SFrame::ItemPara,
        Frame::ItemDone => SFrame::ItemDone,
        Frame::Opaque => SFrame::Opaque,
    }
}

spec fn stack_v(s: Seq<Frame>) -> Seq<SFrame> {
    s.map_values(|f: Frame| frame_v(f))
}

/// The views of pieces.
pub open spec fn pieces_v(s: Seq<Piece>) -> Seq<PieceView> {
    s.map_values(|p: Piece| p@)
}

/// The view of an optional string.
pub open spec fn opt_v(o: Option<String>) -> Option<Seq<char>> {
    match o {
        Some(s) => Some(s@),
        None => None,
    }
}

proof fn lemma_replace(s: Seq<Frame>, i: int, f: Frame)
    requires
        0 <= i < s.len(),
    ensures
        stack_v(s.remove(i).insert(i, f)) =~= stack_v(s).update(i, frame_v(f)),
{
}

fn copy_opt(o: &Option<String>) -> (r: Option<String>)
    ensures
        opt_v(r) == opt_v(*o),
{
    match o {
        Some(s) => Some(crate::text::copy_str(s.as_str())),
        None => None,
    }
}

/// The characters of the inline texts, concatenated.
fn join_inlines(inl: &Vec<Inline>) -> (r: Vec<char>)
    ensures
        r@ == join_texts(inlines_v(inl@)),
{
    let mut out: Vec<char> = Vec::new();
    let mut j: usize = 0;
    while j < inl.len()
        invariant
            j <= inl@.len(),
            out@ == join_texts(inlines_v(inl@.take(j as int))),
        decreases inl@.len() - j,
    {
        let tv = chars_of(inl[j].text.as_str());
        let mut q: usize = 0;
        let ghost before = out@;
        while q < tv.len()
            invariant
                q <= tv@.len(),
                out@ == before + tv@.take(q as int),
            decreases tv@.len() - q,
        {
            out.push(tv[q]);
            proof {
                assert(before + tv@.take(q as int + 1) =~= (before + tv@.take(q as int)).push(tv@[q as int]));
            }
            q += 1;
        }
        proof {
            assert(tv@.take(tv@.len() as int) =~= tv@);
            assert(inlines_v(inl@.take(j as int + 1)).drop_last() =~= inlines_v(inl@.take(j as int)));
        }
        j += 1;
    }
    proof {
        assert(inl@.take(inl@.len() as int) =~= inl@);
    }
    out
}

proof fn lemma_lead(s: Seq<char>, n: int)
    requires
        0 <= n <= s.len(),
        forall|i: int| 0 <= i < n ==> is_ws(#[trigger] s[i]),
        n == s.len() || !is_ws(s[n]),
    ensures
        lead_ws(s) == n,
    decreases s.len(),
{
    if s.len() > 0 && n > 0 {
        let t = s.drop_first();
        assert forall|i: int| 0 <= i < n - 1 implies is_ws(#[trigger] t[i]) by {
            assert(t[i] == s[i + 1]);
        }
        if n - 1 < t.len() {
            assert(t[n - 1] == s[n]);
        }
        lemma_lead(t, n - 1);
    }
}

proof fn lemma_trail(s: Seq<char>, n: int)
    requires
        0 <= n <= s.len(),
        forall|i: int| s.len() - n <= i < s.len() ==> is_ws(#[trigger] s[i]),
        n == s.len() || !is_ws(s[s.len() - n - 1]),
    ensures
        trail_ws(s) == n,
    decreases s.len(),
{
    if s.len() > 0 && n > 0 {
        let t = s.drop_last();
        assert forall|i: int| t.len() - (n - 1) <= i < t.len() implies is_ws(#[trigger] t[i]) by {
            assert(t[i] == s[i]);
        }
        if n - 1 < t.len() {
            assert(t[t.len() - (n - 1) - 1] == s[s.len() - n - 1]);
        }
        lemma_trail(t, n - 1);
    }
}

/// Positions `(p, q)` such that `v[p..q]` is `v[a..b]` without leading and trailing whitespace
/// (`p == b` when it is all whitespace).
pub(crate) fn trim_bounds(v: &Vec<char>, a: usize, b: usize) -> (r: (usize, usize))
    requires
        a <= b <= v@.len(),
    ensures
        r.0 == a + lead_ws(v@.subrange(a as int, b as int)),
        r.0 < b ==> r.1 == b - trail_ws(v@.subrange(a as int, b as int)) && r.0 < r.1 <= b,
        r.0 >= b ==> r.0 == b,
{
    let ghost sub = v@.subrange(a as int, b as int);
    let mut p = a;
    while p < b && is_ws_exec(v[p])
        invariant
            a <= p <= b,
            b <= v@.len(),
            sub == v@.subrange(a as int, b as int),
            forall|i: int| 0 <= i < p - a ==> is_ws(#[trigger] sub[i]),
        decreases b - p,
    {
        p += 1;
    }
    proof {
        lemma_lead(sub, p - a);
    }
    if p >= b {
        return (p, p);
    }
    let mut q = b;
    while q > p && is_ws_exec(v[q - 1])
        invariant
            a <= p < q <= b,
            b <= v@.len(),
            !is_ws(v@[p as int]),
            sub == v@.subrange(a as int, b as int),
            forall|i: int| q - a <= i < sub.len() ==> is_ws(#[trigger] sub[i]),
        decreases q - p,
    {
        q -= 1;
    }
    proof {
        assert(sub[q - a - 1] == v@[q - 1]);
        lemma_trail(sub, b - q);
    }
    (p, q)
}

/// `str::trim`.
pub(crate) fn trim_chars(v: &Vec<char>) -> (r: Vec<char>)
    ensures
        r@ == trim_ws(v@),
{
    let (p, q) = trim_bounds(v, 0, v.len());
    proof {
        assert(v@.subrange(0, v@.len() as int) =~= v@);
    }
    if p >= v.len() {
        Vec::new()
    } else {
        crate::segment::sub_chars(v, p, q)
    }
}

/// `str::trim_end`.
fn trim_end_chars(v: &Vec<char>) -> (r: Vec<char>)
    ensures
        r@ == trim_end_ws(v@),
{
    let mut q = v.len();
    while q > 0 && is_ws_exec(v[q - 1])
        invariant
            q <= v@.len(),
            forall|i: int| q <= i < v@.len() ==> is_ws(#[trigger] v@[i]),
        decreases q,
    {
        q -= 1;
    }
    proof {
        lemma_trail(v@, v@.len() - q);
    }
    crate::segment::sub_chars(v, 0, q)
}

proof fn lemma_boff_strict(t: Seq<char>, i: int, j: int)
    requires
        0 <= i < j <= t.len(),
    ensures
        boff(t, i) < boff(t, j),
{
    crate::segment::lemma_boff_step(t, i);
    crate::segment::lemma_boff_mono(t, i + 1, j);
}

/// The character index at byte `b`, given the byte offsets `offs` of `t`.
fn char_index(offs: &Vec<usize>, t: Ghost<Seq<char>>, b: usize) -> (r: Option<usize>)
    requires
        offs@.len() == t@.len() + 1,
        forall|i: int| 0 <= i <= t@.len() ==> offs@[i] == boff(t@, i),
    ensures
        r matches Some(a) ==> char_at_byte(t@, b as int) == Some(a as int),
        r is None ==> char_at_byte(t@, b as int) is None,
{
    let mut a: usize = 0;
    while a < offs.len()
        invariant
            a <= offs@.len(),
            offs@.len() == t@.len() + 1,
            forall|i: int| 0 <= i <= t@.len() ==> offs@[i] == boff(t@, i),
            forall|i: int| 0 <= i < a ==> boff(t@, i) != b,
        decreases offs@.len() - a,
    {
        if offs[a] == b {
            proof {
                assert(0 <= a <= t@.len() && boff(t@, a as int) == b);
                let w = choose|x: int| 0 <= x <= t@.len() && boff(t@, x) == b;
                if w < a {
                    lemma_boff_strict(t@, w, a as int);
                } else if w > a {
                    lemma_boff_strict(t@, a as int, w);
                }
            }
            return Some(a);
        }
        a += 1;
    }
    None
}

struct Segmenter {
    src: Vec<char>,
    offs: Vec<usize>,
    out: Vec<Piece>,
    section: Option<String>,
    list_depth: u8,
    in_table_head: bool,
    stack: Vec<Frame>,
}

impl Segmenter {
    spec fn v(&self) -> SState {
        SState {
            out: pieces_v(self.out@),
            section: opt_v(self.section),
            list_depth: self.list_depth,
            in_table_head: self.in_table_head,
            stack: stack_v(self.stack@),
        }
    }

    spec fn wf(&self) -> bool {
        &&& self.offs@.len() == self.src@.len() + 1
        &&& forall|i: int| 0 <= i <= self.src@.len() ==> self.offs@[i] == boff(self.src@, i)
    }

    fn emit(&mut self, block: Block, text: &Vec<char>, start: usize, end: usize, depth: u8)
        ensures
            final(self).v() == emit(old(self).v(), block, text@, start as int, end as int, depth),
            final(self).src == old(self).src,
            final(self).offs == old(self).offs,
    {
        let n = normalize_chars(text);
        let nv = chars_of(n.as_str());
        if nv.len() == 0 {
            return;
        }
        let p = Piece { block, text: n, start, end, section: copy_opt(&self.section), depth };
        let ghost before = self.out@;
        self.out.push(p);
        proof {
            assert(pieces_v(self.out@) =~= pieces_v(before).push(p@));
        }
    }

    fn emit_raw(&mut self, block: Block, text: &Vec<char>, start: usize, end: usize)
        ensures
            final(self).v() == emit_raw(old(self).v(), block, text@, start as int, end as int),
            final(self).src == old(self).src,
            final(self).offs == old(self).offs,
    {
        let mut i: usize = 0;
        while i < text.len() && is_ws_exec(text[i])
            invariant
                i <= text@.len(),
                forall|j: int| 0 <= j < i ==> is_ws(#[trigger] text@[j]),
            decreases text@.len() - i,
        {
            i += 1;
        }
        if i >= text.len() {
            return;
        }
        let p = Piece { block, text: string_of(text.as_slice()), start, end, section: copy_opt(&self.section), depth: 0 };
        let ghost before = self.out@;
        self.out.push(p);
        proof {
            assert(pieces_v(self.out@) =~= pieces_v(before).push(p@));
        }
    }

    fn push_inline(&mut self, text: &str, start: usize, end: usize)
        ensures
            final(self).v() == push_inline(old(self).v(), text@, start as int, end as int),
            final(self).src == old(self).src,
            final(self).offs == old(self).offs,
    {
        let ghost s0 = stack_v(self.stack@);
        let mut k = self.stack.len();
        while k > 0 && matches!(self.stack[k - 1], Frame::ItemPara)
            invariant
                k <= self.stack@.len(),
                s0 == stack_v(self.stack@),
                push_inline_from(s0, s0.len() as int, text@, start as int, end as int)
                    == push_inline_from(s0, k as int, text@, start as int, end as int),
            decreases k,
        {
            k -= 1;
        }
        if k == 0 {
            return;
        }
        let ghost full = self.stack@;
        let f = self.stack.remove(k - 1);
        let f2 = match f {
            Frame::Para(mut v) => {
                let x = Inline { text: crate::text::copy_str(text), start, end };
                proof {
                    assert(inlines_v(v@.push(x)) =~= inlines_v(v@).push(inline_v(x)));
                }
                v.push(x);
                Frame::Para(v)
            },
            Frame::Heading(l, mut v, a, b) => {
                let x = Inline { text: crate::text::copy_str(text), start, end };
                proof {
                    assert(inlines_v(v@.push(x)) =~= inlines_v(v@).push(inline_v(x)));
                }
                v.push(x);
                Frame::Heading(l, v, a, b)
            },
            Frame::Item(mut v, a, b, d) => {
                let x = Inline { text: crate::text::copy_str(text), start, end };
                proof {
                    assert(inlines_v(v@.push(x)) =~= inlines_v(v@).push(inline_v(x)));
                }
                v.push(x);
                Frame::Item(v, a, b, d)
            },
            Frame::Row(mut cells, a, b) => {
                if cells.len() > 0 {
                    let ghost c0 = cells@;
                    let mut last = cells.pop().unwrap();
                    push_str(&mut last, text);
                    cells.push(last);
                    proof {
                        assert(cells_v(cells@) =~= cells_v(c0).update(c0.len() - 1, cells_v(c0).last() + text@));
                    }
                }
                Frame::Row(cells, a, b)
            },
            Frame::ItemPara => Frame::ItemPara,
            Frame::ItemDone => Frame::ItemDone,
            Frame::Opaque => Frame::Opaque,
        };
        self.stack.insert(k - 1, f2);
        proof {
            lemma_replace(full, k - 1, f2);
            if f2 is ItemDone || f2 is Opaque {
                assert(s0.update(k - 1, s0[k - 1]) =~= s0);
            }
            assert(s0[k - 1] == frame_v(f));
            assert(stack_v(self.stack@) == push_inline_from(s0, k as int, text@, start as int, end as int));
        }
    }

    fn push_frame(&mut self, f: Frame)
        ensures
            final(self).v() == push_frame(old(self).v(), frame_v(f)),
            final(self).src == old(self).src,
            final(self).offs == old(self).offs,
    {
        let ghost s0 = self.stack@;
        self.stack.push(f);
        proof {
            assert(stack_v(self.stack@) =~= stack_v(s0).push(frame_v(f)));
        }
    }

    fn pop_frame(&mut self) -> (f: Frame)
        requires
            old(self).stack@.len() > 0,
        ensures
            final(self).v() == pop_frame(old(self).v()),
            frame_v(f) == old(self).v().stack.last(),
            final(self).src == old(self).src,
            final(self).offs == old(self).offs,
    {
        let ghost s0 = self.stack@;
        let f = self.stack.pop().unwrap();
        proof {
            assert(stack_v(self.stack@) =~= stack_v(s0).drop_last());
        }
        f
    }

    fn flush_item(&mut self)
        ensures
            final(self).v() == flush_item(old(self).v()),
            final(self).src == old(self).src,
            final(self).offs == old(self).offs,
    {
        let ghost s0 = stack_v(self.stack@);
        let mut k = self.stack.len();
        while k > 0 && !matches!(self.stack[k - 1], Frame::Item(..) | Frame::ItemDone)
            invariant
                k <= self.stack@.len(),
                s0 == stack_v(self.stack@),
                last_item(s0, s0.len() as int) == last_item(s0, k as int),
            decreases k,
        {
            k -= 1;
        }
        if k == 0 {
            return;
        }
        let ghost full = self.stack@;
        let f = self.stack.remove(k - 1);
        self.stack.insert(k - 1, Frame::ItemDone);
        proof {
            lemma_replace(full, k - 1, Frame::ItemDone);
            assert(last_item(s0, k as int) == Some(k - 1));
        }
        match f {
            Frame::Item(inl, rs, _re, depth) => {
                let end = if inl.len() == 0 {
                    rs
                } else {
                    inl[inl.len() - 1].end
                };
                let text = join_inlines(&inl);
                self.emit(Block::Li, &text, rs, if end >= rs { end } else { rs }, depth);
            },
            _ => {
                proof {
                    assert(s0.update(k - 1, s0[k - 1]) =~= s0);
                }
            },
        }
    }

    fn flush_prose(&mut self, inl: &Vec<Inline>)
        ensures
            final(self).v() == flush_prose(old(self).v(), inlines_v(inl@)),
            final(self).src == old(self).src,
            final(self).offs == old(self).offs,
    {
        let ghost iv = inlines_v(inl@);
        let mut c: Vec<char> = Vec::new();
        let mut m: Vec<usize> = Vec::new();
        let mut j: usize = 0;
        while j < inl.len()
            invariant
                j <= inl@.len(),
                iv == inlines_v(inl@),
                c@ == join_texts(iv.take(j as int)),
                m@.len() == c@.len(),
                per_char(iv.take(j as int)).len() == m@.len(),
                forall|i: int| 0 <= i < m@.len() ==> m@[i] == #[trigger] per_char(iv.take(j as int))[i],
            decreases inl@.len() - j,
        {
            let x = &inl[j];
            crate::segment::str_fits(x.text.as_str());
            let tv = chars_of(x.text.as_str());
            let offs = crate::segment::byte_offsets(x.text.as_str(), &tv);
            let rlen: usize = if x.end > x.start { x.end - x.start } else { 0 };
            let ghost cb = c@;
            let ghost mb = m@;
            let ghost im = inline_map(inline_v(*x));
            let mut q: usize = 0;
            while q < tv.len()
                invariant
                    q <= tv@.len(),
                    tv@ == x.text@,
                    offs@.len() == tv@.len() + 1,
                    forall|i: int| 0 <= i <= tv@.len() ==> offs@[i] == boff(tv@, i),
                    rlen == (if x.end > x.start { x.end - x.start } else { 0 }),
                    im == inline_map(inline_v(*x)),
                    c@ == cb + tv@.take(q as int),
                    m@.len() == mb.len() + q,
                    forall|i: int| 0 <= i < mb.len() ==> m@[i] == mb[i],
                    forall|i: int| 0 <= i < q ==> m@[mb.len() + i] == im[i],
                decreases tv@.len() - q,
            {
                c.push(tv[q]);
                let d = if offs[q] < rlen { offs[q] } else { rlen };
                m.push(x.start + d);
                proof {
                    assert(cb + tv@.take(q as int + 1) =~= (cb + tv@.take(q as int)).push(tv@[q as int]));
                }
                q += 1;
            }
            proof {
                assert(tv@.take(tv@.len() as int) =~= tv@);
                assert(iv.take(j as int + 1).drop_last() =~= iv.take(j as int));
                assert(iv.take(j as int + 1).last() == inline_v(*x));
                let pc = per_char(iv.take(j as int + 1));
                assert(pc =~= per_char(iv.take(j as int)) + im);
                assert forall|i: int| 0 <= i < m@.len() implies m@[i] == #[trigger] pc[i] by {
                    if i >= mb.len() {
                        assert(m@[mb.len() + (i - mb.len())] == im[i - mb.len()]);
                    }
                }
            }
            j += 1;
        }
        let end_src: usize = if inl.len() == 0 {
            0
        } else {
            inl[inl.len() - 1].end
        };
        m.push(end_src);
        proof {
            assert(iv.take(inl@.len() as int) =~= iv);
            assert(inl@.take(inl@.len() as int) =~= inl@);
            if inl@.len() > 0 {
                assert(iv.last() == inline_v(inl@.last()));
            }
        }
        let ghost mm = per_char(iv).push(end_src as int);
        let ghost st0 = self.v();
        let rs = sentence_spans(&c);
        proof {
            crate::segment::law_sentences_tile(c@);
        }
        let ghost sent = sentences(c@, 0, 0);
        let mut x: usize = 0;
        while x < rs.len()
            invariant
                x <= rs@.len(),
                rs@.len() == sent.len(),
                sent == sentences(c@, 0, 0),
                crate::segment::tiles(sent, 0, c@.len() as int),
                forall|i: int| 0 <= i < rs@.len() ==> (#[trigger] rs@[i]).0 == sent[i].0 && rs@[i].1 == sent[i].1,
                m@.len() == c@.len() + 1,
                mm.len() == m@.len(),
                forall|i: int| 0 <= i < m@.len() ==> m@[i] == #[trigger] mm[i],
                mm == per_char(iv).push(end_src as int),
                c@ == join_texts(iv),
                self.v() == emit_sentences(st0, c@, mm, sent.take(x as int)),
                self.src == old(self).src,
                self.offs == old(self).offs,
            decreases rs@.len() - x,
        {
            let (a, b) = rs[x];
            proof {
                assert(0 <= sent[x as int].0 && sent[x as int].1 <= c@.len());
                assert(sent[x as int].0 < sent[x as int].1);
                assert(sent.take(x as int + 1).drop_last() =~= sent.take(x as int));
                assert(sent.take(x as int + 1).last() == sent[x as int]);
            }
            let (p, q) = trim_bounds(&c, a, b);
            if p < b {
                let text = crate::segment::sub_chars(&c, p, q);
                let s = m[p];
                let e = if m[q] >= s { m[q] } else { s };
                self.emit(Block::Para, &text, s, e, 0);
            }
            x += 1;
        }
        proof {
            assert(sent.take(sent.len() as int) =~= sent);
        }
    }

    fn end_row(&mut self)
        ensures
            final(self).v() == end_row(old(self).v()),
            final(self).src == old(self).src,
            final(self).offs == old(self).offs,
    {
        if self.stack.len() == 0 {
            return;
        }
        let f = self.pop_frame();
        match f {
            Frame::Row(cells, a, b) => {
                let text = join_cells_exec(&cells);
                self.emit(Block::Row, &text, a, b, 0);
            },
            _ => {},
        }
    }

    fn raw_block(&mut self, block: Block, s: usize, e: usize)
        requires
            old(self).wf(),
        ensures
            final(self).v() == raw_block(old(self).v(), old(self).src@, block, s as int, e as int),
            final(self).src == old(self).src,
            final(self).offs == old(self).offs,
    {
        let a = char_index(&self.offs, Ghost(self.src@), s);
        let b = char_index(&self.offs, Ghost(self.src@), e);
        let text: Vec<char> = match (a, b) {
            (Some(a), Some(b)) => if a <= b {
                let sl = crate::segment::sub_chars(&self.src, a, b);
                trim_end_chars(&sl)
            } else {
                Vec::new()
            },
            _ => Vec::new(),
        };
        self.emit_raw(block, &text, s, e);
        self.push_frame(Frame::Opaque);
    }

    fn start_tag(&mut self, t: MdTag, s: usize, e: usize)
        requires
            old(self).wf(),
        ensures
            final(self).v() == start_tag(old(self).v(), old(self).src@, t, s as int, e as int),
            final(self).src == old(self).src,
            final(self).offs == old(self).offs,
    {
        match t {
            MdTag::Paragraph => {
                let n = self.stack.len();
                let item_empty = if n > 0 {
                    match &self.stack[n - 1] {
                        Frame::Item(v, _, _, _) => v.len() == 0,
                        _ => false,
                    }
                } else {
                    false
                };
                if item_empty {
                    self.push_frame(Frame::ItemPara);
                } else {
                    self.push_frame(Frame::Para(Vec::new()));
                    proof {
                        assert(inlines_v(Seq::<Inline>::empty()) =~= Seq::<SInline>::empty());
                    }
                }
            },
            MdTag::Heading(l) => {
                self.push_frame(Frame::Heading(l, Vec::new(), s, e));
                proof {
                    assert(inlines_v(Seq::<Inline>::empty()) =~= Seq::<SInline>::empty());
                }
            },
            MdTag::List => {
                self.flush_item();
                self.list_depth = if self.list_depth == 255 {
                    0
                } else {
                    self.list_depth + 1
                };
            },
            MdTag::Item => {
                let d = self.list_depth;
                self.push_frame(Frame::Item(Vec::new(), s, e, d));
                proof {
                    assert(inlines_v(Seq::<Inline>::empty()) =~= Seq::<SInline>::empty());
                }
            },
            MdTag::TableHead => {
                self.in_table_head = true;
                self.push_frame(Frame::Row(Vec::new(), s, e));
                proof {
                    assert(cells_v(Seq::<String>::empty()) =~= Seq::<Seq<char>>::empty());
                }
            },
            MdTag::TableRow => {
                self.push_frame(Frame::Row(Vec::new(), s, e));
                proof {
                    assert(cells_v(Seq::<String>::empty()) =~= Seq::<Seq<char>>::empty());
                }
            },
            MdTag::TableCell => {
                let n = self.stack.len();
                if n > 0 && matches!(self.stack[n - 1], Frame::Row(..)) {
                    let f = self.pop_frame();
                    match f {
                        Frame::Row(mut cells, a, b) => {
                            let ghost c0 = cells@;
                            cells.push(String::new());
                            proof {
                                assert(cells_v(cells@) =~= cells_v(c0).push(Seq::<char>::empty()));
                            }
                            self.push_frame(Frame::Row(cells, a, b));
                        },
                        _ => {},
                    }
                    proof {
                        let s0 = old(self).v().stack;
                        assert(s0.drop_last().push(self.v().stack.last()) =~= s0.update(s0.len() - 1, self.v().stack.last()));
                    }
                }
            },
            MdTag::CodeBlock => self.raw_block(Block::Code, s, e),
            MdTag::HtmlBlock => self.raw_block(Block::Html, s, e),
            MdTag::Other => {},
        }
    }

    fn end_tag(&mut self, t: MdTag)
        ensures
            final(self).v() == end_tag(old(self).v(), t),
            final(self).src == old(self).src,
            final(self).offs == old(self).offs,
    {
        match t {
            MdTag::Paragraph => {
                if self.stack.len() > 0 {
                    let f = self.pop_frame();
                    match f {
                        Frame::Para(inl) => self.flush_prose(&inl),
                        Frame::ItemPara => self.flush_item(),
                        _ => {},
                    }
                }
            },
            MdTag::Heading(_) => {
                if self.stack.len() > 0 {
                    let f = self.pop_frame();
                    match f {
                        Frame::Heading(l, inl, a, b) => {
                            let text = join_inlines(&inl);
                            self.section = Some(string_of(text.as_slice()));
                            self.emit(Block::Heading, &text, a, b, l);
                        },
                        _ => {},
                    }
                }
            },
            MdTag::List => {
                if self.list_depth > 0 {
                    self.list_depth = self.list_depth - 1;
                }
            },
            MdTag::Item => {
                self.flush_item();
                if self.stack.len() > 0 {
                    let _f = self.pop_frame();
                }
            },
            MdTag::TableHead => {
                self.in_table_head = false;
                self.end_row();
            },
            MdTag::TableRow => self.end_row(),
            MdTag::CodeBlock | MdTag::HtmlBlock => {
                if self.stack.len() > 0 {
                    let _f = self.pop_frame();
                }
            },
            MdTag::TableCell | MdTag::Other => {},
        }
    }

    fn event(&mut self, it: &MdItem)
        requires
            old(self).wf(),
        ensures
            final(self).v() == step(old(self).v(), old(self).src@, *it),
            final(self).src == old(self).src,
            final(self).offs == old(self).offs,
    {
        match &it.event {
            MdEvent::Start(t) => self.start_tag(*t, it.start, it.end),
            MdEvent::End(t) => self.end_tag(*t),
            MdEvent::Text(t) => self.push_inline(t.as_str(), it.start, it.end),
            MdEvent::Break => {
                let sp = " ";
                proof {
                    reveal_strlit(" ");
                    assert(sp@ =~= seq![' ']);
                }
                self.push_inline(sp, it.start, it.end);
            },
            MdEvent::Other => {},
        }
    }
}

/// Table cells, each trimmed, joined with ` | `.
fn join_cells_exec(cells: &Vec<String>) -> (r: Vec<char>)
    ensures
        r@ == join_cells(cells_v(cells@)),
{
    let mut out: Vec<char> = Vec::new();
    let mut j: usize = 0;
    while j < cells.len()
        invariant
            j <= cells@.len(),
            out@ == join_cells(cells_v(cells@.take(j as int))),
        decreases cells@.len() - j,
    {
        let cv = chars_of(cells[j].as_str());
        let t = trim_chars(&cv);
        let ghost before = out@;
        if j > 0 {
            out.push(' ');
            out.push('|');
            out.push(' ');
        }
        let ghost mid = out@;
        let mut q: usize = 0;
        while q < t.len()
            invariant
                q <= t@.len(),
                out@ == mid + t@.take(q as int),
            decreases t@.len() - q,
        {
            out.push(t[q]);
            proof {
                assert(mid + t@.take(q as int + 1) =~= (mid + t@.take(q as int)).push(t@[q as int]));
            }
            q += 1;
        }
        proof {
            assert(t@.take(t@.len() as int) =~= t@);
            let cs = cells_v(cells@.take(j as int + 1));
            assert(cs.drop_last() =~= cells_v(cells@.take(j as int)));
            assert(cs.last() == cells@[j as int]@);
            if j == 0 {
                assert(out@ =~= t@);
            } else {
                assert(mid =~= before + seq![' ', '|', ' ']);
                assert(out@ =~= before + seq![' ', '|', ' '] + t@);
            }
        }
        j += 1;
    }
    proof {
        assert(cells@.take(cells@.len() as int) =~= cells@);
    }
    out
}


/// Segment a document given its parse: the pieces in document order.
pub fn segment_events(src: &str, evs: &Vec<MdItem>) -> (r: Vec<Piece>)
    ensures
        pieces_v(r@) == spec_segment(src@, evs@),
{
    crate::segment::str_fits(src);
    let sc = chars_of(src);
    let offs = crate::segment::byte_offsets(src, &sc);
    let mut seg = Segmenter {
        src: sc,
        offs,
        out: Vec::new(),
        section: None,
        list_depth: 0,
        in_table_head: false,
        stack: Vec::new(),
    };
    proof {
        assert(pieces_v(seg.out@) =~= Seq::<PieceView>::empty());
        assert(stack_v(seg.stack@) =~= Seq::<SFrame>::empty());
        assert(evs@.take(0) =~= Seq::<MdItem>::empty());
    }
    let mut i: usize = 0;
    while i < evs.len()
        invariant
            i <= evs@.len(),
            seg.wf(),
            seg.src@ == src@,
            seg.v() == run(src@, evs@.take(i as int)),
        decreases evs@.len() - i,
    {
        seg.event(&evs[i]);
        proof {
            assert(evs@.take(i as int + 1).drop_last() =~= evs@.take(i as int));
        }
        i += 1;
    }
    proof {
        assert(evs@.take(evs@.len() as int) =~= evs@);
    }
    seg.out
}

/// Segment a markdown document into pieces in document order.
pub fn segment(src: &str) -> (r: Vec<Piece>)
    ensures
        pieces_v(r@) == spec_segment(src@, parsed_markdown(src@)),
{
    let evs = markdown_events(src);
    segment_events(src, &evs)
}

} // verus!
