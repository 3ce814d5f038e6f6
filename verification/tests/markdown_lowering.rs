use sinorag::markdown::{blocks_from_events, parse_markdown, Align, ColumnAlign, MdBlock, MdEvent, MdTag, Span};

fn text(s: &str) -> MdEvent {
    MdEvent::Text(s.to_string())
}

fn start(t: MdTag) -> MdEvent {
    MdEvent::Start(t)
}

fn span_text(s: &Span) -> &str {
    match s {
        Span::Text { text, .. } => text.as_str(),
        _ => "",
    }
}

#[test]
fn heading_and_styled_paragraph() {
    let ev = vec![
        start(MdTag::Heading(1)),
        text("Title"),
        MdEvent::End,
        start(MdTag::Paragraph),
        text("a "),
        start(MdTag::Strong),
        text("bold"),
        MdEvent::End,
        MdEvent::SoftBreak,
        MdEvent::Code("x".to_string()),
        start(MdTag::Link("https://example.com".to_string())),
        start(MdTag::Emphasis),
        text("l"),
        MdEvent::End,
        MdEvent::End,
        MdEvent::End,
    ];
    let blocks = blocks_from_events(&ev);
    assert_eq!(blocks.len(), 2);
    match &blocks[0] {
        MdBlock::Heading { level, spans } => {
            assert_eq!(*level, 1);
            assert_eq!(spans.len(), 1);
            assert_eq!(span_text(&spans[0]), "Title");
        }
        _ => panic!("expected a heading"),
    }
    match &blocks[1] {
        MdBlock::Paragraph { spans } => {
            assert_eq!(spans.len(), 5);
            match &spans[1] {
                Span::Text { text, style } => {
                    assert_eq!(text, "bold");
                    assert!(style.bold);
                    assert!(!style.italic);
                }
                _ => panic!("expected text"),
            }
            assert!(matches!(spans[2], Span::LineBreak { hard: false }));
            match &spans[3] {
                Span::Text { style, .. } => assert!(style.code),
                _ => panic!("expected code"),
            }
            match &spans[4] {
                Span::Text { text, style } => {
                    assert_eq!(text, "l");
                    assert!(style.italic);
                    assert_eq!(style.link.as_deref(), Some("https://example.com"));
                }
                _ => panic!("expected link text"),
            }
        }
        _ => panic!("expected a paragraph"),
    }
}

#[test]
fn lists_quotes_rules_and_code() {
    let ev = vec![
        start(MdTag::List(Some(3))),
        start(MdTag::Item),
        text("one"),
        MdEvent::End,
        start(MdTag::Item),
        text("two"),
        MdEvent::End,
        MdEvent::End,
        start(MdTag::BlockQuote),
        start(MdTag::Paragraph),
        text("q"),
        MdEvent::End,
        MdEvent::End,
        MdEvent::Rule,
        start(MdTag::CodeBlock(Some("rust extra".to_string()))),
        text("fn main() {}\n"),
        MdEvent::End,
        start(MdTag::CodeBlock(None)),
        text("x\n\n"),
        MdEvent::End,
    ];
    let blocks = blocks_from_events(&ev);
    assert_eq!(blocks.len(), 5);
    match &blocks[0] {
        MdBlock::List { ordered, start, items } => {
            assert!(*ordered);
            assert_eq!(*start, 3);
            assert_eq!(items.len(), 2);
            match &items[1][0] {
                MdBlock::Paragraph { spans } => assert_eq!(span_text(&spans[0]), "two"),
                _ => panic!("tight item becomes a paragraph"),
            }
        }
        _ => panic!("expected a list"),
    }
    match &blocks[1] {
        MdBlock::BlockQuote(inner) => assert_eq!(inner.len(), 1),
        _ => panic!("expected a quote"),
    }
    assert!(matches!(blocks[2], MdBlock::Rule));
    match &blocks[3] {
        MdBlock::CodeBlock { text, lang } => {
            assert_eq!(text, "fn main() {}");
            assert_eq!(lang.as_deref(), Some("rust"));
        }
        _ => panic!("expected code"),
    }
    match &blocks[4] {
        MdBlock::CodeBlock { text, lang } => {
            assert_eq!(text, "x\n");
            assert!(lang.is_none());
        }
        _ => panic!("expected code"),
    }
}

#[test]
fn unordered_list_starts_at_one() {
    let ev = vec![start(MdTag::List(None)), start(MdTag::Item), text("a"), MdEvent::End, MdEvent::End];
    let blocks = blocks_from_events(&ev);
    match &blocks[0] {
        MdBlock::List { ordered, start, items } => {
            assert!(!*ordered);
            assert_eq!(*start, 1);
            assert_eq!(items.len(), 1);
        }
        _ => panic!("expected a list"),
    }
}

#[test]
fn tables_and_images() {
    let ev = vec![
        start(MdTag::Table(vec![ColumnAlign::Unset, ColumnAlign::Right])),
        start(MdTag::TableHead),
        start(MdTag::TableCell),
        text("Name"),
        MdEvent::End,
        start(MdTag::TableCell),
        text("N"),
        MdEvent::End,
        MdEvent::End,
        start(MdTag::TableRow),
        start(MdTag::TableCell),
        text("Alpha"),
        MdEvent::End,
        start(MdTag::TableCell),
        text("1"),
        MdEvent::End,
        MdEvent::End,
        MdEvent::End,
        start(MdTag::Paragraph),
        start(MdTag::Image("a.png".to_string())),
        text("alt "),
        start(MdTag::Strong),
        text("text"),
        MdEvent::End,
        MdEvent::End,
        MdEvent::End,
    ];
    let blocks = blocks_from_events(&ev);
    assert_eq!(blocks.len(), 2);
    match &blocks[0] {
        MdBlock::Table { aligns, header, rows } => {
            assert_eq!(aligns, &vec![Align::Left, Align::Right]);
            assert_eq!(header.len(), 2);
            assert_eq!(span_text(&header[0][0]), "Name");
            assert_eq!(rows.len(), 1);
            assert_eq!(span_text(&rows[0][0][0]), "Alpha");
        }
        _ => panic!("expected a table"),
    }
    match &blocks[1] {
        MdBlock::Paragraph { spans } => match &spans[0] {
            Span::Image { url, alt } => {
                assert_eq!(url, "a.png");
                assert_eq!(alt, "alt text");
            }
            _ => panic!("expected an image"),
        },
        _ => panic!("expected a paragraph"),
    }
}

#[test]
fn unknown_containers_are_skipped() {
    let ev = vec![
        start(MdTag::Other),
        start(MdTag::Paragraph),
        text("hidden"),
        MdEvent::End,
        MdEvent::End,
        MdEvent::Other,
        start(MdTag::Paragraph),
        text("shown"),
        MdEvent::End,
    ];
    let blocks = blocks_from_events(&ev);
    assert_eq!(blocks.len(), 1);
    match &blocks[0] {
        MdBlock::Paragraph { spans } => assert_eq!(span_text(&spans[0]), "shown"),
        _ => panic!("expected a paragraph"),
    }
}

#[test]
fn stray_end_stops_the_top_level() {
    let ev = vec![start(MdTag::Paragraph), text("a"), MdEvent::End, MdEvent::End, MdEvent::Rule];
    let blocks = blocks_from_events(&ev);
    assert_eq!(blocks.len(), 1);
}

#[test]
fn empty_stream_gives_no_blocks() {
    assert!(blocks_from_events(&[]).is_empty());
}

#[test]
fn markdown_source_heading_and_paragraph() {
    let blocks = parse_markdown("# Title\n\nplain **bold** and `code`\n");
    assert_eq!(blocks.len(), 2);
    match &blocks[0] {
        MdBlock::Heading { level, spans } => {
            assert_eq!(*level, 1);
            assert_eq!(spans.len(), 1);
            assert_eq!(span_text(&spans[0]), "Title");
        }
        _ => panic!("expected a heading"),
    }
    match &blocks[1] {
        MdBlock::Paragraph { spans } => {
            assert_eq!(spans.len(), 4);
            assert_eq!(span_text(&spans[0]), "plain ");
            match &spans[1] {
                Span::Text { text, style } => {
                    assert_eq!(text, "bold");
                    assert!(style.bold);
                }
                _ => panic!("expected bold text"),
            }
            match &spans[3] {
                Span::Text { text, style } => {
                    assert_eq!(text, "code");
                    assert!(style.code);
                }
                _ => panic!("expected code"),
            }
        }
        _ => panic!("expected a paragraph"),
    }
}

#[test]
fn markdown_source_table_list_and_fence() {
    let src = "| a | b |\n|:-:|--:|\n| 1 | 2 |\n\n3. three\n4. four\n\n```rust extra\nfn f() {}\n```\n\n---\n";
    let blocks = parse_markdown(src);
    assert_eq!(blocks.len(), 4);
    match &blocks[0] {
        MdBlock::Table { aligns, header, rows } => {
            assert_eq!(aligns, &vec![Align::Center, Align::Right]);
            assert_eq!(header.len(), 2);
            assert_eq!(span_text(&header[0][0]), "a");
            assert_eq!(rows.len(), 1);
            assert_eq!(span_text(&rows[0][1][0]), "2");
        }
        _ => panic!("expected a table"),
    }
    match &blocks[1] {
        MdBlock::List { ordered, start, items } => {
            assert!(*ordered);
            assert_eq!(*start, 3);
            assert_eq!(items.len(), 2);
        }
        _ => panic!("expected a list"),
    }
    match &blocks[2] {
        MdBlock::CodeBlock { text, lang } => {
            assert_eq!(text, "fn f() {}");
            assert_eq!(lang.as_deref(), Some("rust"));
        }
        _ => panic!("expected a code block"),
    }
    assert!(matches!(blocks[3], MdBlock::Rule));
}

#[test]
fn markdown_source_empty_gives_no_blocks() {
    assert!(parse_markdown("").is_empty());
}
