//! Markdown into a styled block model.
//!
//! pulldown-cmark's CommonMark parser (with tables, strikethrough,
//! footnotes and task lists) produces a flat stream of start/end/text
//! events, converted one for one into `MdEvent`s; this module lowers that
//! stream into a small tree of blocks (`MdBlock`) holding styled inline
//! spans (`Span`).
//! The lowering is a recursive descent over the event stream with a cursor:
//! every container consumes its own closing `End`, and an `End` that a
//! container does not own is left for its parent.

use vstd::prelude::*;
use pulldown_cmark::{Alignment, CodeBlockKind, Event, Options, Parser, Tag};
use crate::text::{push_str, chars_of, string_from, is_whitespace, is_ws, trim_start, opt_view, clone_opt};

verus! {

/// Column alignment for a table.
#[derive(Debug, Clone, Copy, PartialEq, Eq)]
pub enum Align {
    Left,
    Center,
    Right,
}

/// Column alignment as the Markdown source gives it: `Unset` where the
/// delimiter row sets none.
#[derive(Debug, Clone, Copy, PartialEq, Eq)]
pub enum ColumnAlign {
    Unset,
    Left,
    Center,
    Right,
}

/// The alignment a table column is laid out with: left unless the source
/// asks for centre or right.
pub open spec fn align_of(a: ColumnAlign) -> Align {
    match a {
        ColumnAlign::Center => Align::Center,
        ColumnAlign::Right => Align::Right,
        _ => Align::Left,
    }
}

/// Inline styling that applies to a run of text.
#[derive(Debug, Clone, Default, PartialEq, Eq)]
pub struct InlineStyle {
    pub bold: bool,
    pub italic: bool,
    pub code: bool,
    pub strike: bool,
    /// `Some(url)` when this run is part of a hyperlink.
    pub link: Option<String>,
}

/// Bold, italic, code, strike and link target.
pub type StyleV = (bool, bool, bool, bool, Option<Seq<char>>);

impl View for InlineStyle {
    type V = StyleV;

    open spec fn view(&self) -> StyleV {
        (self.bold, self.italic, self.code, self.strike, opt_view(self.link))
    }
}

/// A piece of inline content within a block.
#[derive(Debug, Clone)]
pub enum Span {
    /// Styled run of text.
    Text { text: String, style: InlineStyle },
    /// Image reference (rendered as an embedded raster, or alt text on failure).
    Image { url: String, alt: String },
    /// Line break inside a block (`hard` = explicit `\` / two-space break).
    LineBreak { hard: bool },
}

/// What a span holds.
pub enum SpanV {
    Text(Seq<char>, StyleV),
    Image(Seq<char>, Seq<char>),
    LineBreak(bool),
}

impl View for Span {
    type V = SpanV;

    open spec fn view(&self) -> SpanV {
        match self {
            Span::Text { text, style } => SpanV::Text(text@, style@),
            Span::Image { url, alt } => SpanV::Image(url@, alt@),
            Span::LineBreak { hard } => SpanV::LineBreak(*hard),
        }
    }
}

pub open spec fn spans_v(s: Seq<Span>) -> Seq<SpanV> {
    s.map_values(|x: Span| x@)
}

/// One event of the Markdown event stream: the tag of a container that
/// starts here.
pub enum MdTag {
    Paragraph,
    /// A heading of the given level (1 to 6).
    Heading(u8),
    BlockQuote,
    /// A list; `Some(n)` for an ordered list starting at `n`.
    List(Option<u64>),
    Item,
    /// A code block; `Some(info)` for a fenced block with its info string,
    /// `None` for an indented one.
    CodeBlock(Option<String>),
    Table(Vec<ColumnAlign>),
    TableHead,
    TableRow,
    TableCell,
    Emphasis,
    Strong,
    Strikethrough,
    /// A link to the given URL.
    Link(String),
    /// An image at the given URL; its content is the alt text.
    Image(String),
    /// Any other container (HTML block, footnote definition, ...).
    Other,
}

/// One event of the Markdown event stream.
pub enum MdEvent {
    Start(MdTag),
    End,
    Text(String),
    Code(String),
    SoftBreak,
    HardBreak,
    Rule,
    /// Any other event (inline HTML, footnote reference, task marker, ...).
    Other,
}

/// Inline tags: emphasis, strong, strikethrough, link and image. They never
/// open a new block.
pub open spec fn inline_tag(t: MdTag) -> bool {
    match t {
        MdTag::Emphasis | MdTag::Strong | MdTag::Strikethrough | MdTag::Link(_) | MdTag::Image(_) => true,
        _ => false,
    }
}

fn is_inline_tag(t: &MdTag) -> (r: bool)
    ensures
        r == inline_tag(*t),
{
    match t {
        MdTag::Emphasis | MdTag::Strong | MdTag::Strikethrough | MdTag::Link(_) | MdTag::Image(_) => true,
        _ => false,
    }
}

pub open spec fn default_style() -> StyleV {
    (false, false, false, false, None)
}

/// The style of the content of the inline container `t` inside a run styled `st`.
pub open spec fn inner_style(t: MdTag, st: StyleV) -> StyleV {
    match t {
        MdTag::Emphasis => (st.0, true, st.2, st.3, st.4),
        MdTag::Strong => (true, st.1, st.2, st.3, st.4),
        MdTag::Strikethrough => (st.0, st.1, st.2, true, st.4),
        MdTag::Link(u) => (st.0, st.1, st.2, st.3, Some(u@)),
        MdTag::Image(_) => default_style(),
        _ => st,
    }
}

pub open spec fn with_code(st: StyleV) -> StyleV {
    (st.0, st.1, true, st.3, st.4)
}

/// The text of the text spans of `s`, concatenated.
pub open spec fn plain(s: Seq<SpanV>) -> Seq<char>
    decreases s.len(),
{
    if s.len() == 0 {
        Seq::empty()
    } else {
        plain(s.drop_last()) + match s.last() {
            SpanV::Text(t, _) => t,
            _ => Seq::empty(),
        }
    }
}

/// The position after `p`, past one closing event if one stands there.
pub open spec fn end_after(ev: Seq<MdEvent>, p: int) -> int {
    if 0 <= p < ev.len() && ev[p] is End {
        p + 1
    } else {
        p
    }
}

/// `p` when it lies after `base` and within the stream; otherwise the
/// position just after `base`. Sub-parses always end after where they
/// started, so this is `p` wherever it is used.
pub open spec fn fwd(p: int, base: int, len: int) -> int {
    if base < p <= len {
        p
    } else {
        base + 1
    }
}

/// Events that inline parsing consumes when it meets them first.
pub open spec fn inline_consumes(e: MdEvent) -> bool {
    match e {
        MdEvent::End => false,
        MdEvent::Start(t) => inline_tag(t),
        _ => true,
    }
}

/// Inline content from `pos` up to the end of the enclosing container or
/// the first block-level start, styled `st`: the spans and the position
/// after them.
pub open spec fn inl(ev: Seq<MdEvent>, pos: int, st: StyleV) -> (Seq<SpanV>, int)
    decreases ev.len() - pos,
{
    if pos < 0 || pos >= ev.len() {
        (Seq::empty(), pos)
    } else {
        match ev[pos] {
            MdEvent::End => (Seq::empty(), pos),
            MdEvent::Text(t) => {
                let r = inl(ev, pos + 1, st);
                (seq![SpanV::Text(t@, st)] + r.0, r.1)
            },
            MdEvent::Code(t) => {
                let r = inl(ev, pos + 1, st);
                (seq![SpanV::Text(t@, with_code(st))] + r.0, r.1)
            },
            MdEvent::SoftBreak => {
                let r = inl(ev, pos + 1, st);
                (seq![SpanV::LineBreak(false)] + r.0, r.1)
            },
            MdEvent::HardBreak => {
                let r = inl(ev, pos + 1, st);
                (seq![SpanV::LineBreak(true)] + r.0, r.1)
            },
            MdEvent::Start(tag) => {
                if !inline_tag(tag) {
                    (Seq::empty(), pos)
                } else {
                    let inner = inl(ev, pos + 1, inner_style(tag, st));
                    let after = fwd(end_after(ev, inner.1), pos, ev.len() as int);
                    let rest = inl(ev, after, st);
                    let here = match tag {
                        MdTag::Image(url) => seq![SpanV::Image(url@, plain(inner.0))],
                        _ => inner.0,
                    };
                    (here + rest.0, rest.1)
                }
            },
            _ => inl(ev, pos + 1, st),
        }
    }
}

/// Inline parsing stays within the stream and moves forward; it moves past
/// an event that it consumes.
pub proof fn lemma_inl_bounds(ev: Seq<MdEvent>, pos: int, st: StyleV)
    requires
        0 <= pos <= ev.len(),
    ensures
        pos <= inl(ev, pos, st).1 <= ev.len(),
        pos < ev.len() && inline_consumes(ev[pos]) ==> inl(ev, pos, st).1 > pos,
    decreases ev.len() - pos,
{
    if pos < ev.len() {
        match ev[pos] {
            MdEvent::End => {},
            MdEvent::Start(tag) => {
                if inline_tag(tag) {
                    let inner = inl(ev, pos + 1, inner_style(tag, st));
                    lemma_inl_bounds(ev, pos + 1, inner_style(tag, st));
                    let after = fwd(end_after(ev, inner.1), pos, ev.len() as int);
                    lemma_inl_bounds(ev, after, st);
                }
            },
            _ => {
                lemma_inl_bounds(ev, pos + 1, st);
            },
        }
    }
}
fn copy_style(s: &InlineStyle) -> (r: InlineStyle)
    ensures
        r@ == s@,
{
    InlineStyle { bold: s.bold, italic: s.italic, code: s.code, strike: s.strike, link: clone_opt(&s.link) }
}

/// Flatten spans to plain text (used for image alt text).
fn spans_to_plain(spans: &[Span]) -> (out: String)
    ensures
        out@ == plain(spans_v(spans@)),
{
    let mut out = String::new();
    let mut i: usize = 0;
    while i < spans.len()
        invariant
            i <= spans@.len(),
            out@ == plain(spans_v(spans@.take(i as int))),
        decreases spans.len() - i,
    {
        assert(spans_v(spans@.take(i + 1)).drop_last() =~= spans_v(spans@.take(i as int)));
        if let Span::Text { text, .. } = &spans[i] {
            push_str(&mut out, text.as_str());
        }
        i += 1;
    }
    assert(spans@.take(spans@.len() as int) =~= spans@);
    out
}

/// Consume a single `End` event if present.
fn consume_end(ev: &[MdEvent], i: &mut usize)
    requires
        *old(i) <= ev@.len(),
    ensures
        *final(i) == end_after(ev@, *old(i) as int),
{
    if *i < ev.len() {
        if let MdEvent::End = ev[*i] {
            *i += 1;
        }
    }
}

/// Parse inline content until the End of the enclosing inline/leaf container.
/// Nested inline Starts consume their own matching End.
fn parse_inlines(ev: &[MdEvent], i: &mut usize, style: InlineStyle) -> (spans: Vec<Span>)
    requires
        *old(i) <= ev@.len(),
    ensures
        spans_v(spans@) == inl(ev@, *old(i) as int, style@).0,
        *final(i) == inl(ev@, *old(i) as int, style@).1,
    decreases ev@.len() - *old(i),
{
    let ghost start = *i as int;
    let ghost st = style@;
    let mut spans: Vec<Span> = Vec::new();
    while *i < ev.len()
        invariant_except_break
            start == *old(i),
            start <= *i <= ev@.len(),
            style@ == st,
            spans_v(spans@) + inl(ev@, *i as int, st).0 == inl(ev@, start, st).0,
            inl(ev@, *i as int, st).1 == inl(ev@, start, st).1,
        ensures
            start <= *i <= ev@.len(),
            spans_v(spans@) == inl(ev@, start, st).0,
            *i == inl(ev@, start, st).1,
        decreases ev@.len() - *i,
    {
        let pos = *i;
        match &ev[pos] {
            MdEvent::End => {
                assert(spans_v(spans@) + Seq::<SpanV>::empty() =~= spans_v(spans@));
                break;
            },
            MdEvent::Text(t) => {
                spans.push(Span::Text { text: t.clone(), style: copy_style(&style) });
                *i += 1;
            },
            MdEvent::Code(t) => {
                let mut s = copy_style(&style);
                s.code = true;
                spans.push(Span::Text { text: t.clone(), style: s });
                *i += 1;
            },
            MdEvent::SoftBreak => {
                spans.push(Span::LineBreak { hard: false });
                *i += 1;
            },
            MdEvent::HardBreak => {
                spans.push(Span::LineBreak { hard: true });
                *i += 1;
            },
            MdEvent::Start(tag) => {
                if !is_inline_tag(tag) {
                    assert(spans_v(spans@) + Seq::<SpanV>::empty() =~= spans_v(spans@));
                    break;
                }
                *i += 1;
                let ghost inner_start = *i as int;
                let inner = match tag {
                    MdTag::Emphasis => {
                        let mut s = copy_style(&style);
                        s.italic = true;
                        parse_inlines(ev, i, s)
                    },
                    MdTag::Strong => {
                        let mut s = copy_style(&style);
                        s.bold = true;
                        parse_inlines(ev, i, s)
                    },
                    MdTag::Strikethrough => {
                        let mut s = copy_style(&style);
                        s.strike = true;
                        parse_inlines(ev, i, s)
                    },
                    MdTag::Link(url) => {
                        let mut s = copy_style(&style);
                        s.link = Some(url.clone());
                        parse_inlines(ev, i, s)
                    },
                    _ => {
                        parse_inlines(
                            ev,
                            i,
                            InlineStyle { bold: false, italic: false, code: false, strike: false, link: None },
                        )
                    },
                };
                proof {
                    lemma_inl_bounds(ev@, inner_start, inner_style(*tag, st));
                }
                consume_end(ev, i);
                match tag {
                    MdTag::Image(url) => {
                        let alt = spans_to_plain(inner.as_slice());
                        spans.push(Span::Image { url: url.clone(), alt });
                    },
                    _ => {
                        let ghost before = spans@;
                        let mut inner = inner;
                        spans.append(&mut inner);
                        proof {
                            assert(spans_v(spans@) =~= spans_v(before) + inl(ev@, inner_start, inner_style(*tag, st)).0);
                        }
                    },
                }
            },
            _ => {
                *i += 1;
            },
        }
        proof {
            assert(spans_v(spans@) + inl(ev@, *i as int, st).0 =~= inl(ev@, start, st).0);
        }
    }
    spans
}

/// A block-level Markdown element.
#[derive(Debug)]
pub enum MdBlock {
    Heading { level: u8, spans: Vec<Span> },
    Paragraph { spans: Vec<Span> },
    BlockQuote(Vec<MdBlock>),
    List { ordered: bool, start: u64, items: Vec<Vec<MdBlock>> },
    CodeBlock { text: String, lang: Option<String> },
    Table { aligns: Vec<Align>, header: Vec<Vec<Span>>, rows: Vec<Vec<Vec<Span>>> },
    Rule,
}

/// What a block holds.
pub enum BlockV {
    Heading(u8, Seq<SpanV>),
    Paragraph(Seq<SpanV>),
    BlockQuote(Seq<BlockV>),
    /// Ordered, start number, items.
    List(bool, u64, Seq<Seq<BlockV>>),
    /// Text and language.
    CodeBlock(Seq<char>, Option<Seq<char>>),
    /// Column alignments, header cells, rows of cells.
    Table(Seq<Align>, Seq<Seq<SpanV>>, Seq<Seq<Seq<SpanV>>>),
    Rule,
}

pub open spec fn cells_v(s: Seq<Vec<Span>>) -> Seq<Seq<SpanV>> {
    s.map_values(|c: Vec<Span>| spans_v(c@))
}

pub open spec fn rows_v(s: Seq<Vec<Vec<Span>>>) -> Seq<Seq<Seq<SpanV>>> {
    s.map_values(|r: Vec<Vec<Span>>| cells_v(r@))
}

pub open spec fn block_v(b: MdBlock) -> BlockV
    decreases b,
{
    match b {
        MdBlock::Heading { level, spans } => BlockV::Heading(level, spans_v(spans@)),
        MdBlock::Paragraph { spans } => BlockV::Paragraph(spans_v(spans@)),
        MdBlock::BlockQuote(inner) => BlockV::BlockQuote(blocks_v(inner@)),
        MdBlock::List { ordered, start, items } => BlockV::List(ordered, start, items_v(items@)),
        MdBlock::CodeBlock { text, lang } => BlockV::CodeBlock(text@, opt_view(lang)),
        MdBlock::Table { aligns, header, rows } => BlockV::Table(aligns@, cells_v(header@), rows_v(rows@)),
        MdBlock::Rule => BlockV::Rule,
    }
}

pub open spec fn blocks_v(s: Seq<MdBlock>) -> Seq<BlockV>
    decreases s,
{
    if s.len() == 0 {
        Seq::empty()
    } else {
        blocks_v(s.drop_last()).push(block_v(s.last()))
    }
}

pub open spec fn items_v(s: Seq<Vec<MdBlock>>) -> Seq<Seq<BlockV>>
    decreases s,
{
    if s.len() == 0 {
        Seq::empty()
    } else {
        items_v(s.drop_last()).push(blocks_v(s.last()@))
    }
}

proof fn lemma_blocks_v_push(s: Seq<MdBlock>, b: MdBlock)
    ensures
        blocks_v(s.push(b)) == blocks_v(s).push(block_v(b)),
{
    assert(s.push(b).drop_last() =~= s);
}

proof fn lemma_items_v_push(s: Seq<Vec<MdBlock>>, b: Vec<MdBlock>)
    ensures
        items_v(s.push(b)) == items_v(s).push(blocks_v(b@)),
{
    assert(s.push(b).drop_last() =~= s);
}

impl View for MdBlock {
    type V = BlockV;

    open spec fn view(&self) -> BlockV {
        block_v(*self)
    }
}

/// The first whitespace-free run of `t`.
pub open spec fn word_prefix(t: Seq<char>) -> Seq<char>
    decreases t.len(),
{
    if t.len() == 0 || is_ws(t[0]) {
        Seq::empty()
    } else {
        seq![t[0]] + word_prefix(t.drop_first())
    }
}

/// The language of a code block: the first word of a fenced block's info
/// string, if it has one.
pub open spec fn code_lang(info: Option<Seq<char>>) -> Option<Seq<char>> {
    match info {
        None => None,
        Some(s) => {
            let w = word_prefix(trim_start(s));
            if w.len() == 0 {
                None
            } else {
                Some(w)
            }
        },
    }
}

/// `t` without one trailing newline.
pub open spec fn strip_newline(t: Seq<char>) -> Seq<char> {
    if t.len() > 0 && t.last() == '\n' {
        t.drop_last()
    } else {
        t
    }
}

/// The position after skipping a subtree whose start is already consumed,
/// `depth` containers being open.
pub open spec fn skip_end(ev: Seq<MdEvent>, pos: int, depth: int) -> int
    decreases ev.len() - pos,
{
    if pos < 0 || pos >= ev.len() || depth <= 0 {
        pos
    } else {
        match ev[pos] {
            MdEvent::Start(_) => skip_end(ev, pos + 1, depth + 1),
            MdEvent::End => skip_end(ev, pos + 1, depth - 1),
            _ => skip_end(ev, pos + 1, depth),
        }
    }
}

/// The text of a code block from `pos` up to the closing event.
pub open spec fn code_text(ev: Seq<MdEvent>, pos: int) -> (Seq<char>, int)
    decreases ev.len() - pos,
{
    if pos < 0 || pos >= ev.len() {
        (Seq::empty(), pos)
    } else {
        match ev[pos] {
            MdEvent::Text(t) => {
                let r = code_text(ev, pos + 1);
                (t@ + r.0, r.1)
            },
            MdEvent::End => (Seq::empty(), pos),
            _ => code_text(ev, pos + 1),
        }
    }
}

/// The cells of a table row from `pos` up to the row's closing event.
pub open spec fn row_cells(ev: Seq<MdEvent>, pos: int) -> (Seq<Seq<SpanV>>, int)
    decreases ev.len() - pos,
{
    if pos < 0 || pos >= ev.len() {
        (Seq::empty(), pos)
    } else {
        match ev[pos] {
            MdEvent::Start(MdTag::TableCell) => {
                let c = inl(ev, pos + 1, default_style());
                let after = fwd(end_after(ev, c.1), pos, ev.len() as int);
                let rest = row_cells(ev, after);
                (seq![c.0] + rest.0, rest.1)
            },
            MdEvent::End => (Seq::empty(), pos),
            _ => row_cells(ev, pos + 1),
        }
    }
}

/// The header (the last one, if several) and the rows of a table from `pos`
/// up to the table's closing event.
pub open spec fn table_parts(ev: Seq<MdEvent>, pos: int) -> (Option<Seq<Seq<SpanV>>>, Seq<Seq<Seq<SpanV>>>, int)
    decreases ev.len() - pos,
{
    if pos < 0 || pos >= ev.len() {
        (None, Seq::empty(), pos)
    } else {
        match ev[pos] {
            MdEvent::Start(MdTag::TableHead) => {
                let c = row_cells(ev, pos + 1);
                let after = fwd(end_after(ev, c.1), pos, ev.len() as int);
                let rest = table_parts(ev, after);
                (if rest.0 is Some { rest.0 } else { Some(c.0) }, rest.1, rest.2)
            },
            MdEvent::Start(MdTag::TableRow) => {
                let c = row_cells(ev, pos + 1);
                let after = fwd(end_after(ev, c.1), pos, ev.len() as int);
                let rest = table_parts(ev, after);
                (rest.0, seq![c.0] + rest.1, rest.2)
            },
            MdEvent::End => (None, Seq::empty(), pos),
            _ => table_parts(ev, pos + 1),
        }
    }
}

/// Blocks from `pos` up to the end of the enclosing container: the blocks
/// and the position of that container's closing event (or the end).
pub open spec fn blk(ev: Seq<MdEvent>, pos: int) -> (Seq<BlockV>, int)
    decreases ev.len() - pos, 2int,
{
    if pos < 0 || pos >= ev.len() {
        (Seq::empty(), pos)
    } else {
        match ev[pos] {
            MdEvent::End => (Seq::empty(), pos),
            MdEvent::Rule => {
                let r = blk(ev, pos + 1);
                (seq![BlockV::Rule] + r.0, r.1)
            },
            MdEvent::Other => blk(ev, pos + 1),
            MdEvent::Start(tag) => {
                if !inline_tag(tag) {
                    let b = one_block(tag, ev, pos + 1);
                    let after = match b.0 {
                        Some(_) => fwd(b.1, pos, ev.len() as int),
                        None => fwd(skip_end(ev, b.1, 1), pos, ev.len() as int),
                    };
                    let rest = blk(ev, after);
                    (
                        match b.0 {
                            Some(x) => seq![x] + rest.0,
                            None => rest.0,
                        },
                        rest.1,
                    )
                } else {
                    inline_run(ev, pos)
                }
            },
            _ => inline_run(ev, pos),
        }
    }
}

/// Bare inline content at `pos` (as in a tight list item), wrapped as a
/// paragraph when it holds any span, then the blocks after it.
pub open spec fn inline_run(ev: Seq<MdEvent>, pos: int) -> (Seq<BlockV>, int)
    decreases ev.len() - pos, 1int,
{
    if pos < 0 || pos >= ev.len() {
        (Seq::empty(), pos)
    } else {
        let r = inl(ev, pos, default_style());
        let rest = blk(ev, fwd(r.1, pos, ev.len() as int));
        (if r.0.len() > 0 { seq![BlockV::Paragraph(r.0)] + rest.0 } else { rest.0 }, rest.1)
    }
}

/// The items of a list from `pos` up to the list's closing event.
pub open spec fn list_items(ev: Seq<MdEvent>, pos: int) -> (Seq<Seq<BlockV>>, int)
    decreases ev.len() - pos, 1int,
{
    if pos < 0 || pos >= ev.len() {
        (Seq::empty(), pos)
    } else {
        match ev[pos] {
            MdEvent::Start(MdTag::Item) => {
                let r = blk(ev, pos + 1);
                let after = fwd(end_after(ev, r.1), pos, ev.len() as int);
                let rest = list_items(ev, after);
                (seq![r.0] + rest.0, rest.1)
            },
            MdEvent::End => (Seq::empty(), pos),
            _ => list_items(ev, pos + 1),
        }
    }
}

/// The block that the container `tag`, started just before `pos`, forms,
/// and the position after its closing event; `None` (and `pos`) for a
/// container that forms no block.
pub open spec fn one_block(tag: MdTag, ev: Seq<MdEvent>, pos: int) -> (Option<BlockV>, int)
    decreases ev.len() - pos, 3int,
{
    match tag {
        MdTag::Paragraph => {
            let r = inl(ev, pos, default_style());
            (Some(BlockV::Paragraph(r.0)), end_after(ev, r.1))
        },
        MdTag::Heading(level) => {
            let r = inl(ev, pos, default_style());
            (Some(BlockV::Heading(level, r.0)), end_after(ev, r.1))
        },
        MdTag::BlockQuote => {
            let r = blk(ev, pos);
            (Some(BlockV::BlockQuote(r.0)), end_after(ev, r.1))
        },
        MdTag::List(start) => {
            let r = list_items(ev, pos);
            (
                Some(
                    BlockV::List(
                        start is Some,
                        match start {
                            Some(n) => n,
                            None => 1,
                        },
                        r.0,
                    ),
                ),
                end_after(ev, r.1),
            )
        },
        MdTag::CodeBlock(info) => {
            let r = code_text(ev, pos);
            (Some(BlockV::CodeBlock(strip_newline(r.0), code_lang(opt_view(info)))), end_after(ev, r.1))
        },
        MdTag::Table(aligns) => {
            let r = table_parts(ev, pos);
            let header = match r.0 {
                Some(h) => h,
                None => Seq::empty(),
            };
            (Some(BlockV::Table(aligns@.map_values(|a: ColumnAlign| align_of(a)), header, r.1)), end_after(ev, r.2))
        },
        _ => (None, pos),
    }
}

/// Skip a subtree whose `Start` was already consumed, balancing Start/End.
fn skip_to_end(ev: &[MdEvent], i: &mut usize)
    requires
        *old(i) <= ev@.len(),
    ensures
        *final(i) == skip_end(ev@, *old(i) as int, 1),
        *old(i) <= *final(i) <= ev@.len(),
{
    let ghost start = *i as int;
    // Containers opened inside the subtree and not yet closed.
    let mut open: usize = 0;
    while *i < ev.len()
        invariant_except_break
            0 <= start <= *i <= ev@.len(),
            open <= *i - start,
            skip_end(ev@, *i as int, open + 1) == skip_end(ev@, start, 1),
        ensures
            start <= *i <= ev@.len(),
            *i == skip_end(ev@, start, 1),
        decreases ev@.len() - *i,
    {
        match &ev[*i] {
            MdEvent::Start(_) => {
                open += 1;
            },
            MdEvent::End => {
                if open == 0 {
                    *i += 1;
                    assert(skip_end(ev@, *i as int, 0) == *i);
                    break;
                }
                open -= 1;
            },
            _ => {},
        }
        *i += 1;
    }
}

/// The first whitespace-separated word of `info`, if any.
fn first_word(info: &str) -> (r: Option<String>)
    ensures
        opt_view(r) == code_lang(Some(info@)),
{
    let cs = chars_of(info);
    let n = cs.len();
    let mut j: usize = 0;
    assert(cs@.skip(0) =~= cs@);
    while j < n && is_whitespace(cs[j])
        invariant
            j <= n,
            n == cs@.len(),
            cs@ == info@,
            trim_start(cs@) == trim_start(cs@.skip(j as int)),
        decreases n - j,
    {
        assert(cs@.skip(j as int).drop_first() =~= cs@.skip(j + 1));
        j += 1;
    }
    assert(trim_start(cs@) == cs@.skip(j as int));
    let mut k: usize = j;
    while k < n && !is_whitespace(cs[k])
        invariant
            j <= k <= n,
            n == cs@.len(),
            word_prefix(cs@.skip(j as int)) == cs@.subrange(j as int, k as int) + word_prefix(cs@.skip(k as int)),
        decreases n - k,
    {
        assert(cs@.skip(k as int).drop_first() =~= cs@.skip(k + 1));
        assert(cs@.subrange(j as int, k as int) + seq![cs@[k as int]] =~= cs@.subrange(j as int, k + 1));
        k += 1;
    }
    assert(word_prefix(cs@.skip(k as int)) =~= Seq::<char>::empty());
    assert(cs@.subrange(j as int, k as int) + Seq::<char>::empty() =~= cs@.subrange(j as int, k as int));
    if k == j {
        None
    } else {
        let w = string_from(&cs.as_slice()[j..k]);
        Some(w)
    }
}

/// The alignment a column is laid out with.
fn layout_align(a: ColumnAlign) -> (r: Align)
    ensures
        r == align_of(a),
{
    match a {
        ColumnAlign::Center => Align::Center,
        ColumnAlign::Right => Align::Right,
        _ => Align::Left,
    }
}

/// The alignments the columns of a table are laid out with.
fn column_aligns(v: &Vec<ColumnAlign>) -> (r: Vec<Align>)
    ensures
        r@ == v@.map_values(|a: ColumnAlign| align_of(a)),
{
    let mut r: Vec<Align> = Vec::new();
    let mut i: usize = 0;
    while i < v.len()
        invariant
            i <= v@.len(),
            r@ == v@.take(i as int).map_values(|a: ColumnAlign| align_of(a)),
        decreases v.len() - i,
    {
        r.push(layout_align(v[i]));
        assert(v@.take(i as int).push(v@[i as int]) =~= v@.take(i + 1));
        assert(r@ =~= v@.take(i + 1).map_values(|a: ColumnAlign| align_of(a)));
        i += 1;
    }
    assert(v@.take(v@.len() as int) =~= v@);
    r
}

/// Parse the cells of a single table row (cursor positioned after the row Start).
fn parse_table_row(ev: &[MdEvent], i: &mut usize) -> (cells: Vec<Vec<Span>>)
    requires
        *old(i) <= ev@.len(),
    ensures
        cells_v(cells@) == row_cells(ev@, *old(i) as int).0,
        *final(i) == row_cells(ev@, *old(i) as int).1,
        *old(i) <= *final(i) <= ev@.len(),
{
    let ghost start = *i as int;
    let mut cells: Vec<Vec<Span>> = Vec::new();
    while *i < ev.len()
        invariant_except_break
            start <= *i <= ev@.len(),
            cells_v(cells@) + row_cells(ev@, *i as int).0 == row_cells(ev@, start).0,
            row_cells(ev@, *i as int).1 == row_cells(ev@, start).1,
        ensures
            start <= *i <= ev@.len(),
            cells_v(cells@) == row_cells(ev@, start).0,
            *i == row_cells(ev@, start).1,
        decreases ev@.len() - *i,
    {
        let ghost pos = *i as int;
        match &ev[*i] {
            MdEvent::Start(MdTag::TableCell) => {
                *i += 1;
                let spans = parse_inlines(
                    ev,
                    i,
                    InlineStyle { bold: false, italic: false, code: false, strike: false, link: None },
                );
                proof {
                    lemma_inl_bounds(ev@, pos + 1, default_style());
                }
                consume_end(ev, i);
                cells.push(spans);
            },
            MdEvent::End => {
                assert(cells_v(cells@) + Seq::<Seq<SpanV>>::empty() =~= cells_v(cells@));
                break;
            },
            _ => {
                *i += 1;
            },
        }
        proof {
            assert(cells_v(cells@) + row_cells(ev@, *i as int).0 =~= row_cells(ev@, start).0);
        }
    }
    cells
}

/// The header and rows of a table (cursor positioned after the table Start),
/// up to the table's End, which is left for the caller.
fn parse_table_body(ev: &[MdEvent], i: &mut usize) -> (r: (Vec<Vec<Span>>, Vec<Vec<Vec<Span>>>))
    requires
        *old(i) <= ev@.len(),
    ensures
        cells_v(r.0@) == (match table_parts(ev@, *old(i) as int).0 {
            Some(h) => h,
            None => Seq::empty(),
        }),
        rows_v(r.1@) == table_parts(ev@, *old(i) as int).1,
        *final(i) == table_parts(ev@, *old(i) as int).2,
        *old(i) <= *final(i) <= ev@.len(),
{
    let ghost start = *i as int;
    let mut header: Vec<Vec<Span>> = Vec::new();
    let mut seen_header = false;
    let mut rows: Vec<Vec<Vec<Span>>> = Vec::new();
    while *i < ev.len()
        invariant_except_break
            start <= *i <= ev@.len(),
            !seen_header ==> header@.len() == 0,
            rows_v(rows@) + table_parts(ev@, *i as int).1 == table_parts(ev@, start).1,
            table_parts(ev@, *i as int).2 == table_parts(ev@, start).2,
            table_parts(ev@, start).0 == (if table_parts(ev@, *i as int).0 is Some {
                table_parts(ev@, *i as int).0
            } else if seen_header {
                Some(cells_v(header@))
            } else {
                None
            }),
        ensures
            start <= *i <= ev@.len(),
            !seen_header ==> header@.len() == 0,
            table_parts(ev@, *i as int).0 is None,
            table_parts(ev@, *i as int).1.len() == 0,
            rows_v(rows@) == table_parts(ev@, start).1,
            *i == table_parts(ev@, start).2,
            table_parts(ev@, start).0 == (if seen_header {
                Some(cells_v(header@))
            } else {
                None::<Seq<Seq<SpanV>>>
            }),
        decreases ev@.len() - *i,
    {
        let ghost pos = *i as int;
        match &ev[*i] {
            MdEvent::Start(MdTag::TableHead) => {
                *i += 1;
                header = parse_table_row(ev, i);
                consume_end(ev, i);
                seen_header = true;
            },
            MdEvent::Start(MdTag::TableRow) => {
                *i += 1;
                let row = parse_table_row(ev, i);
                consume_end(ev, i);
                rows.push(row);
            },
            MdEvent::End => {
                assert(rows_v(rows@) + Seq::<Seq<Seq<SpanV>>>::empty() =~= rows_v(rows@));
                break;
            },
            _ => {
                *i += 1;
            },
        }
        proof {
            assert(rows_v(rows@) + table_parts(ev@, *i as int).1 =~= table_parts(ev@, start).1);
        }
    }
    proof {
        if *i >= ev@.len() {
            assert(rows_v(rows@) + Seq::<Seq<Seq<SpanV>>>::empty() =~= rows_v(rows@));
        }
    }
    if !seen_header {
        assert(cells_v(header@) =~= Seq::<Seq<SpanV>>::empty());
    }
    (header, rows)
}

/// The text of a code block (cursor positioned after its Start), up to the
/// block's End, which is left for the caller.
fn parse_code_text(ev: &[MdEvent], i: &mut usize) -> (text: Vec<char>)
    requires
        *old(i) <= ev@.len(),
    ensures
        text@ == code_text(ev@, *old(i) as int).0,
        *final(i) == code_text(ev@, *old(i) as int).1,
        *old(i) <= *final(i) <= ev@.len(),
{
    let ghost start = *i as int;
    let mut text: Vec<char> = Vec::new();
    while *i < ev.len()
        invariant_except_break
            start <= *i <= ev@.len(),
            text@ + code_text(ev@, *i as int).0 == code_text(ev@, start).0,
            code_text(ev@, *i as int).1 == code_text(ev@, start).1,
        ensures
            start <= *i <= ev@.len(),
            text@ == code_text(ev@, start).0,
            *i == code_text(ev@, start).1,
        decreases ev@.len() - *i,
    {
        match &ev[*i] {
            MdEvent::Text(t) => {
                let cs = chars_of(t.as_str());
                let mut k: usize = 0;
                let ghost before = text@;
                while k < cs.len()
                    invariant
                        k <= cs@.len(),
                        text@ == before + cs@.take(k as int),
                    decreases cs.len() - k,
                {
                    text.push(cs[k]);
                    assert(cs@.take(k as int).push(cs@[k as int]) =~= cs@.take(k + 1));
                    assert(before + cs@.take(k + 1) =~= (before + cs@.take(k as int)).push(cs@[k as int]));
                    k += 1;
                }
                assert(cs@.take(cs@.len() as int) =~= cs@);
                *i += 1;
            },
            MdEvent::End => {
                assert(text@ + Seq::<char>::empty() =~= text@);
                break;
            },
            _ => {
                *i += 1;
            },
        }
        proof {
            assert(text@ + code_text(ev@, *i as int).0 =~= code_text(ev@, start).0);
        }
    }
    text
}

pub open spec fn opt_block_v(b: Option<MdBlock>) -> Option<BlockV> {
    match b {
        Some(x) => Some(block_v(x)),
        None => None,
    }
}

fn plain_style() -> (r: InlineStyle)
    ensures
        r@ == default_style(),
{
    InlineStyle { bold: false, italic: false, code: false, strike: false, link: None }
}

/// Parse a single block whose `Start(tag)` has already been consumed. Consumes
/// the matching `End`.
fn parse_block(tag: &MdTag, ev: &[MdEvent], i: &mut usize) -> (r: Option<MdBlock>)
    requires
        *old(i) <= ev@.len(),
    ensures
        opt_block_v(r) == one_block(*tag, ev@, *old(i) as int).0,
        *final(i) == one_block(*tag, ev@, *old(i) as int).1,
        *old(i) <= *final(i) <= ev@.len(),
    decreases ev@.len() - *old(i), 3int,
{
    let ghost s0 = *i as int;
    match tag {
        MdTag::Paragraph => {
            let spans = parse_inlines(ev, i, plain_style());
            proof {
                lemma_inl_bounds(ev@, s0, default_style());
            }
            consume_end(ev, i);
            Some(MdBlock::Paragraph { spans })
        },
        MdTag::Heading(level) => {
            let spans = parse_inlines(ev, i, plain_style());
            proof {
                lemma_inl_bounds(ev@, s0, default_style());
            }
            consume_end(ev, i);
            Some(MdBlock::Heading { level: *level, spans })
        },
        MdTag::BlockQuote => {
            let inner = parse_blocks(ev, i);
            consume_end(ev, i);
            Some(MdBlock::BlockQuote(inner))
        },
        MdTag::List(start) => {
            let ordered = start.is_some();
            let start_num: u64 = match start {
                Some(n) => *n,
                None => 1,
            };
            let mut items: Vec<Vec<MdBlock>> = Vec::new();
            while *i < ev.len()
                invariant_except_break
                    s0 == *old(i),
                    s0 <= *i <= ev@.len(),
                    items_v(items@) + list_items(ev@, *i as int).0 == list_items(ev@, s0).0,
                    list_items(ev@, *i as int).1 == list_items(ev@, s0).1,
                ensures
                    s0 <= *i <= ev@.len(),
                    items_v(items@) == list_items(ev@, s0).0,
                    *i == list_items(ev@, s0).1,
                decreases ev@.len() - *i,
            {
                let ghost pos = *i as int;
                match &ev[*i] {
                    MdEvent::Start(MdTag::Item) => {
                        *i += 1;
                        let item_blocks = parse_blocks(ev, i);
                        consume_end(ev, i);
                        proof {
                            lemma_items_v_push(items@, item_blocks);
                        }
                        items.push(item_blocks);
                    },
                    MdEvent::End => {
                        assert(items_v(items@) + Seq::<Seq<BlockV>>::empty() =~= items_v(items@));
                        break;
                    },
                    _ => {
                        *i += 1;
                    },
                }
                proof {
                    assert(items_v(items@) + list_items(ev@, *i as int).0 =~= list_items(ev@, s0).0);
                }
            }
            consume_end(ev, i);
            Some(MdBlock::List { ordered, start: start_num, items })
        },
        MdTag::CodeBlock(info) => {
            let lang = match info {
                Some(s) => first_word(s.as_str()),
                None => None,
            };
            let mut text = parse_code_text(ev, i);
            consume_end(ev, i);
            // Drop a single trailing newline emitted by the fence.
            let n = text.len();
            if n > 0 && text[n - 1] == '\n' {
                text.pop();
            }
            let text = string_from(text.as_slice());
            Some(MdBlock::CodeBlock { text, lang })
        },
        MdTag::Table(aligns) => {
            let aligns = column_aligns(aligns);
            let (header, rows) = parse_table_body(ev, i);
            consume_end(ev, i);
            Some(MdBlock::Table { aligns, header, rows })
        },
        _ => None,
    }
}

/// Read block-level elements until the End of the enclosing container (which is
/// left unconsumed for the caller) or the end of the event stream.
fn parse_blocks(ev: &[MdEvent], i: &mut usize) -> (blocks: Vec<MdBlock>)
    requires
        *old(i) <= ev@.len(),
    ensures
        blocks_v(blocks@) == blk(ev@, *old(i) as int).0,
        *final(i) == blk(ev@, *old(i) as int).1,
        *old(i) <= *final(i) <= ev@.len(),
    decreases ev@.len() - *old(i), 2int,
{
    let ghost start = *i as int;
    let mut blocks: Vec<MdBlock> = Vec::new();
    while *i < ev.len()
        invariant_except_break
            start == *old(i),
            start <= *i <= ev@.len(),
            blocks_v(blocks@) + blk(ev@, *i as int).0 == blk(ev@, start).0,
            blk(ev@, *i as int).1 == blk(ev@, start).1,
        ensures
            start <= *i <= ev@.len(),
            blocks_v(blocks@) == blk(ev@, start).0,
            *i == blk(ev@, start).1,
        decreases ev@.len() - *i,
    {
        let pos = *i;
        let ghost before = blocks@;
        match &ev[pos] {
            // belongs to our parent container
            MdEvent::End => {
                assert(blocks_v(blocks@) + Seq::<BlockV>::empty() =~= blocks_v(blocks@));
                break;
            },
            MdEvent::Rule => {
                proof {
                    lemma_blocks_v_push(blocks@, MdBlock::Rule);
                }
                blocks.push(MdBlock::Rule);
                *i += 1;
            },
            MdEvent::Other => {
                *i += 1;
            },
            MdEvent::Start(tag) if !is_inline_tag(tag) => {
                *i += 1;
                let b = parse_block(tag, ev, i);
                let ghost ob = one_block(*tag, ev@, pos + 1);
                match b {
                    Some(block) => {
                        proof {
                            lemma_blocks_v_push(blocks@, block);
                            assert(blk(ev@, pos as int).0 == seq![block_v(block)] + blk(ev@, *i as int).0);
                        }
                        blocks.push(block);
                    },
                    None => {
                        skip_to_end(ev, i);
                        assert(blk(ev@, pos as int).0 == blk(ev@, *i as int).0);
                    },
                }
                assert(blk(ev@, pos as int).1 == blk(ev@, *i as int).1);
            },
            // Bare inline content (e.g. a tight list item) — wrap as a paragraph.
            _ => {
                let spans = parse_inlines(ev, i, plain_style());
                proof {
                    lemma_inl_bounds(ev@, pos as int, default_style());
                }
                assert(blk(ev@, pos as int) == inline_run(ev@, pos as int));
                if spans.len() > 0 {
                    let p = MdBlock::Paragraph { spans };
                    proof {
                        lemma_blocks_v_push(blocks@, p);
                    }
                    blocks.push(p);
                }
            },
        }
        proof {
            assert(blocks_v(blocks@) + blk(ev@, *i as int).0 =~= blk(ev@, start).0);
        }
    }
    blocks
}

/// The blocks of a Markdown document, given its event stream.
pub fn blocks_from_events(ev: &[MdEvent]) -> (blocks: Vec<MdBlock>)
    ensures
        blocks_v(blocks@) == blk(ev@, 0).0,
{
    let mut i: usize = 0;
    parse_blocks(ev, &mut i)
}

// ---------------------------------------------------------------------------
// The CommonMark parser
// ---------------------------------------------------------------------------

/// `pulldown_cmark::Event`, carried through opaque.
#[verifier::external_type_specification]
#[verifier::external_body]
pub struct ExCmarkEvent<'a>(pulldown_cmark::Event<'a>);

/// `pulldown_cmark::Tag`, carried through opaque.
#[verifier::external_type_specification]
#[verifier::external_body]
pub struct ExCmarkTag<'a>(pulldown_cmark::Tag<'a>);

/// `pulldown_cmark::Alignment`, carried through opaque.
#[verifier::external_type_specification]
#[verifier::external_body]
pub struct ExCmarkAlignment(pulldown_cmark::Alignment);

/// A column alignment of pulldown-cmark's as a `ColumnAlign`, variant for
/// variant.
#[verifier::external_body]
fn cmark_align(a: &pulldown_cmark::Alignment) -> ColumnAlign {
    match a {
        Alignment::None => ColumnAlign::Unset,
        Alignment::Left => ColumnAlign::Left,
        Alignment::Center => ColumnAlign::Center,
        Alignment::Right => ColumnAlign::Right,
    }
}

/// An inline tag of pulldown-cmark's as an `MdTag`, keeping a link's or an
/// image's destination; any other tag becomes `MdTag::Other`.
#[verifier::external_body]
fn cmark_inline_tag(t: pulldown_cmark::Tag<'_>) -> MdTag {
    match t {
        Tag::Emphasis => MdTag::Emphasis,
        Tag::Strong => MdTag::Strong,
        Tag::Strikethrough => MdTag::Strikethrough,
        Tag::Link { dest_url, .. } => MdTag::Link(dest_url.to_string()),
        Tag::Image { dest_url, .. } => MdTag::Image(dest_url.to_string()),
        _ => MdTag::Other,
    }
}

/// A tag of pulldown-cmark's as an `MdTag`: the block tags here, the rest
/// by `cmark_inline_tag`.
#[verifier::external_body]
fn cmark_tag(t: pulldown_cmark::Tag<'_>) -> MdTag {
    match t {
        Tag::Paragraph => MdTag::Paragraph,
        Tag::Heading { level, .. } => MdTag::Heading(level as u8),
        Tag::BlockQuote(_) => MdTag::BlockQuote,
        Tag::List(start) => MdTag::List(start),
        Tag::Item => MdTag::Item,
        Tag::CodeBlock(CodeBlockKind::Fenced(info)) => MdTag::CodeBlock(Some(info.to_string())),
        Tag::CodeBlock(CodeBlockKind::Indented) => MdTag::CodeBlock(None),
        Tag::Table(aligns) => MdTag::Table(aligns.iter().map(cmark_align).collect()),
        Tag::TableHead => MdTag::TableHead,
        Tag::TableRow => MdTag::TableRow,
        Tag::TableCell => MdTag::TableCell,
        other => cmark_inline_tag(other),
    }
}

/// An event of pulldown-cmark's as an `MdEvent`; the events the lowering
/// does not read become `MdEvent::Other`.
#[verifier::external_body]
fn cmark_event(e: pulldown_cmark::Event<'_>) -> MdEvent {
    match e {
        Event::Start(t) => MdEvent::Start(cmark_tag(t)),
        Event::End(_) => MdEvent::End,
        Event::Text(t) => MdEvent::Text(t.to_string()),
        Event::Code(t) => MdEvent::Code(t.to_string()),
        Event::SoftBreak => MdEvent::SoftBreak,
        Event::HardBreak => MdEvent::HardBreak,
        Event::Rule => MdEvent::Rule,
        _ => MdEvent::Other,
    }
}

/// The events pulldown-cmark's parser yields for `src` with tables,
/// strikethrough, footnotes and task lists switched on, each as an
/// `MdEvent`. They depend on the text alone.
pub uninterp spec fn markdown_events_of(src: Seq<char>) -> Seq<MdEvent>;

/// `pulldown_cmark::Parser::new_ext` with tables, strikethrough, footnotes
/// and task lists, its events converted: claims only that the result is the
/// stream named by `markdown_events_of`.
#[verifier::external_body]
fn markdown_events(src: &str) -> (r: Vec<MdEvent>)
    ensures
        r@ == markdown_events_of(src@),
{
    let options = Options::ENABLE_TABLES | Options::ENABLE_STRIKETHROUGH | Options::ENABLE_FOOTNOTES
        | Options::ENABLE_TASKLISTS;
    Parser::new_ext(src, options).map(cmark_event).collect()
}

/// Parse Markdown source into a block tree (CommonMark with tables,
/// strikethrough, footnotes and task lists).
pub fn parse_markdown(src: &str) -> (blocks: Vec<MdBlock>)
    ensures
        blocks_v(blocks@) == blk(markdown_events_of(src@), 0).0,
{
    let events = markdown_events(src);
    blocks_from_events(events.as_slice())
}


/// Inline parsing runs to the end of the stream, to an `End` (left for the
/// container that owns it), or to a block-level start (left for the block
/// parser).
pub proof fn inlines_stop_at_a_boundary(ev: Seq<MdEvent>, pos: int, st: StyleV)
    requires
        0 <= pos <= ev.len(),
    ensures
        ({
            let r = inl(ev, pos, st).1;
            r == ev.len() || (pos <= r < ev.len() && (ev[r] is End || (ev[r] matches MdEvent::Start(t) && !inline_tag(t))))
        }),
    decreases ev.len() - pos,
{
    if pos < ev.len() {
        match ev[pos] {
            MdEvent::End => {},
            MdEvent::Start(tag) => {
                if inline_tag(tag) {
                    let inner = inl(ev, pos + 1, inner_style(tag, st));
                    let after = fwd(end_after(ev, inner.1), pos, ev.len() as int);
                    inlines_stop_at_a_boundary(ev, after, st);
                }
            },
            _ => {
                inlines_stop_at_a_boundary(ev, pos + 1, st);
            },
        }
    }
}

/// Block lowering runs to the end of the stream or to an `End`, which it
/// leaves for the enclosing container.
pub proof fn blocks_stop_at_end(ev: Seq<MdEvent>, pos: int)
    requires
        0 <= pos <= ev.len(),
    ensures
        blk(ev, pos).1 == ev.len() || (pos <= blk(ev, pos).1 < ev.len() && ev[blk(ev, pos).1] is End),
    decreases ev.len() - pos,
{
    if pos < ev.len() {
        match ev[pos] {
            MdEvent::End => {},
            MdEvent::Rule => {
                blocks_stop_at_end(ev, pos + 1);
            },
            MdEvent::Other => {
                blocks_stop_at_end(ev, pos + 1);
            },
            MdEvent::Start(tag) => {
                if !inline_tag(tag) {
                    let b = one_block(tag, ev, pos + 1);
                    let after = match b.0 {
                        Some(_) => fwd(b.1, pos, ev.len() as int),
                        None => fwd(skip_end(ev, b.1, 1), pos, ev.len() as int),
                    };
                    blocks_stop_at_end(ev, after);
                } else {
                    let r = inl(ev, pos, default_style());
                    blocks_stop_at_end(ev, fwd(r.1, pos, ev.len() as int));
                    assert(blk(ev, pos) == inline_run(ev, pos));
                    assert(inline_run(ev, pos).1 == blk(ev, fwd(r.1, pos, ev.len() as int)).1);
                }
            },
            _ => {
                let r = inl(ev, pos, default_style());
                blocks_stop_at_end(ev, fwd(r.1, pos, ev.len() as int));
                assert(blk(ev, pos) == inline_run(ev, pos));
                assert(inline_run(ev, pos).1 == blk(ev, fwd(r.1, pos, ev.len() as int)).1);
            },
        }
    }
}

/// Text inside struck-through content stays struck through, whatever other
/// inline styling nests inside it: from a run styled with strike, every
/// text span has strike set.
pub proof fn struck_text_stays_struck(ev: Seq<MdEvent>, pos: int, st: StyleV)
    requires
        st.3,
    ensures
        forall|i: int|
            0 <= i < inl(ev, pos, st).0.len() ==> (#[trigger] inl(ev, pos, st).0[i] matches SpanV::Text(_, s) ==> s.3),
    decreases ev.len() - pos,
{
    if 0 <= pos < ev.len() {
        match ev[pos] {
            MdEvent::End => {},
            MdEvent::Start(tag) => {
                if inline_tag(tag) {
                    let inner = inl(ev, pos + 1, inner_style(tag, st));
                    lemma_inl_bounds(ev, pos + 1, inner_style(tag, st));
                    let after = fwd(end_after(ev, inner.1), pos, ev.len() as int);
                    struck_text_stays_struck(ev, after, st);
                    match tag {
                        MdTag::Image(_) => {},
                        _ => {
                            struck_text_stays_struck(ev, pos + 1, inner_style(tag, st));
                        },
                    }
                }
            },
            _ => {
                struck_text_stays_struck(ev, pos + 1, st);
            },
        }
    }
}

/// Struck-through text is struck: text that opens a strikethrough comes out
/// as a text span with strike set and the rest of the surrounding style
/// kept.
pub proof fn strikethrough_strikes_its_text(ev: Seq<MdEvent>, pos: int, st: StyleV, t: String)
    requires
        0 <= pos,
        pos + 1 < ev.len(),
        ev[pos] == MdEvent::Start(MdTag::Strikethrough),
        ev[pos + 1] == MdEvent::Text(t),
    ensures
        inl(ev, pos, st).0.len() > 0,
        inl(ev, pos, st).0[0] == SpanV::Text(t@, (st.0, st.1, st.2, true, st.4)),
{
    let s2 = (st.0, st.1, st.2, true, st.4);
    assert(inl(ev, pos + 1, s2).0[0] == SpanV::Text(t@, s2));
}

/// A paragraph that opens with struck-through text: its first span is that
/// text, struck through and otherwise plain.
pub proof fn struck_paragraph_opens_struck(ev: Seq<MdEvent>, pos: int, t: String)
    requires
        0 <= pos,
        pos + 2 < ev.len(),
        ev[pos] == MdEvent::Start(MdTag::Paragraph),
        ev[pos + 1] == MdEvent::Start(MdTag::Strikethrough),
        ev[pos + 2] == MdEvent::Text(t),
    ensures
        blk(ev, pos).0.len() > 0,
        blk(ev, pos).0[0] matches BlockV::Paragraph(spans) && spans.len() > 0 && spans[0] == SpanV::Text(
            t@,
            (false, false, false, true, None),
        ),
{
    strikethrough_strikes_its_text(ev, pos + 1, default_style(), t);
    let spans = inl(ev, pos + 1, default_style()).0;
    let b = one_block(MdTag::Paragraph, ev, pos + 1);
    assert(b.0 == Some(BlockV::Paragraph(spans)));
    let after = fwd(b.1, pos, ev.len() as int);
    assert(blk(ev, pos).0 == seq![BlockV::Paragraph(spans)] + blk(ev, after).0);
    assert(blk(ev, pos).0[0] == BlockV::Paragraph(spans));
}

/// Text that opens an inline container takes the container's styling on top
/// of the surrounding style: emphasis sets italic, strong sets bold, a link
/// sets its URL; the other flags are kept.
pub proof fn inline_containers_style_their_text(ev: Seq<MdEvent>, pos: int, st: StyleV, tag: MdTag, t: String)
    requires
        0 <= pos,
        pos + 1 < ev.len(),
        ev[pos] == MdEvent::Start(tag),
        ev[pos + 1] == MdEvent::Text(t),
    ensures
        tag == MdTag::Emphasis ==> inl(ev, pos, st).0.len() > 0 && inl(ev, pos, st).0[0] == SpanV::Text(
            t@,
            (st.0, true, st.2, st.3, st.4),
        ),
        tag == MdTag::Strong ==> inl(ev, pos, st).0.len() > 0 && inl(ev, pos, st).0[0] == SpanV::Text(
            t@,
            (true, st.1, st.2, st.3, st.4),
        ),
        tag matches MdTag::Link(u) ==> inl(ev, pos, st).0.len() > 0 && inl(ev, pos, st).0[0] == SpanV::Text(
            t@,
            (st.0, st.1, st.2, st.3, Some(u@)),
        ),
{
    let s2 = inner_style(tag, st);
    assert(inl(ev, pos + 1, s2).0[0] == SpanV::Text(t@, s2));
}

/// Inline code comes out as a text span with the code flag set and the rest
/// of the surrounding style kept.
pub proof fn inline_code_is_code(ev: Seq<MdEvent>, pos: int, st: StyleV, t: String)
    requires
        0 <= pos < ev.len(),
        ev[pos] == MdEvent::Code(t),
    ensures
        inl(ev, pos, st).0.len() > 0,
        inl(ev, pos, st).0[0] == SpanV::Text(t@, (st.0, st.1, true, st.3, st.4)),
{
}

} // verus!
