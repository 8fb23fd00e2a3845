use ankimdown::markdown::builder::Builder;
use ankimdown::markdown::node::{ListOrderType, Node};
use ankimdown::markdown::parser::ErrorPolicy;
use ankimdown::markdown::text::{SpanError, Text};
use ankimdown::markdown::token::{BlockKind, InlineKind, Token};

fn text(content: &str) -> Token {
    Token::Text(content.to_string())
}

fn plain(content: &str) -> Text {
    Text::Plain(content.to_string())
}

fn heading_tokens(level: usize, title: &str) -> Vec<Token> {
    vec![
        Token::BlockStart(BlockKind::Heading(level)),
        text(title),
        Token::BlockEnd(BlockKind::Heading(level)),
    ]
}

fn paragraph_tokens(content: &str) -> Vec<Token> {
    vec![
        Token::BlockStart(BlockKind::Paragraph),
        text(content),
        Token::BlockEnd(BlockKind::Paragraph),
    ]
}

fn heading(level: usize, title: &str, subnodes: Vec<Node>) -> Node {
    Node::Heading { level, content: vec![plain(title)], subnodes }
}

fn bare_heading(level: usize) -> Node {
    Node::Heading { level, content: vec![], subnodes: vec![] }
}

fn paragraph(content: &str) -> Node {
    Node::Paragraph(vec![Node::Text(plain(content))])
}

fn parents_of_levels(levels: &[usize]) -> Vec<Option<usize>> {
    let mut builder = Builder::new();
    for level in levels {
        builder.push_node(bare_heading(*level));
    }
    (0..levels.len()).map(|handle| builder.parent(handle)).collect()
}

#[test]
fn test_nested_headings_scenario() {
    let mut tokens = heading_tokens(1, "Intro");
    tokens.extend(heading_tokens(2, "A"));
    tokens.extend(heading_tokens(3, "A.1"));
    tokens.extend(heading_tokens(1, "Next"));
    let document = Node::parse_document(&tokens, ErrorPolicy::Abort).unwrap();
    let expected = Node::Document(vec![
        heading(1, "Intro", vec![heading(2, "A", vec![heading(3, "A.1", vec![])])]),
        heading(1, "Next", vec![]),
    ]);
    assert_eq!(document, expected);
}

#[test]
fn test_paragraph_with_emphasis_scenario() {
    let tokens = vec![
        Token::BlockStart(BlockKind::Paragraph),
        text("a"),
        Token::InlineStart(InlineKind::Emphasis),
        text("b"),
        Token::InlineEnd(InlineKind::Emphasis),
        text("c"),
        Token::BlockEnd(BlockKind::Paragraph),
    ];
    let nodes = Node::parse_nodes(&tokens, ErrorPolicy::Abort).unwrap();
    let expected = Node::Paragraph(vec![
        Node::Text(plain("a")),
        Node::Text(Text::Italic("b".to_string())),
        Node::Text(plain("c")),
    ]);
    assert_eq!(nodes, vec![expected]);
    assert_eq!(nodes[0].to_markdown(), "a_b_c");
}

#[test]
fn test_parent_is_nearest_lower_heading() {
    assert_eq!(parents_of_levels(&[1, 2, 3, 1]), vec![None, Some(0), Some(1), None]);
    assert_eq!(parents_of_levels(&[2, 1, 2]), vec![None, None, Some(1)]);
    assert_eq!(parents_of_levels(&[1, 1]), vec![None, None]);
    assert_eq!(
        parents_of_levels(&[3, 2, 4, 4, 3, 1, 6, 2]),
        vec![None, None, Some(1), Some(1), Some(1), None, Some(5), Some(5)]
    );
}

#[test]
fn test_equal_levels_are_siblings() {
    assert_eq!(parents_of_levels(&[1, 2, 2]), vec![None, Some(0), Some(0)]);
    let mut tokens = heading_tokens(1, "top");
    tokens.extend(heading_tokens(2, "one"));
    tokens.extend(heading_tokens(2, "two"));
    let nodes = Node::parse_nodes(&tokens, ErrorPolicy::Abort).unwrap();
    assert_eq!(
        nodes,
        vec![heading(1, "top", vec![heading(2, "one", vec![]), heading(2, "two", vec![])])]
    );
}

#[test]
fn test_level_jump_nests_directly() {
    assert_eq!(parents_of_levels(&[1, 3]), vec![None, Some(0)]);
    let mut tokens = heading_tokens(1, "top");
    tokens.extend(heading_tokens(3, "deep"));
    let nodes = Node::parse_nodes(&tokens, ErrorPolicy::Abort).unwrap();
    assert_eq!(nodes, vec![heading(1, "top", vec![heading(3, "deep", vec![])])]);
}

#[test]
fn test_level_one_closes_every_open_heading() {
    let mut builder = Builder::new();
    builder.push_node(bare_heading(1));
    builder.push_node(bare_heading(2));
    builder.push_node(bare_heading(3));
    assert_eq!(builder.depth(), 3);
    let handle = builder.push_node(bare_heading(1));
    assert_eq!(handle, 3);
    assert_eq!(builder.depth(), 1);
    assert_eq!(builder.parent(3), None);
    assert_eq!(builder.len(), 4);
}

#[test]
fn test_other_blocks_hang_under_the_open_heading() {
    let mut builder = Builder::new();
    assert_eq!(builder.push_node(paragraph("before")), 0);
    assert_eq!(builder.depth(), 0);
    assert_eq!(builder.push_node(bare_heading(2)), 1);
    assert_eq!(builder.push_node(paragraph("first")), 2);
    assert_eq!(builder.push_node(Node::List { items: vec![] }), 3);
    assert_eq!(builder.depth(), 1);
    assert_eq!(builder.push_node(bare_heading(3)), 4);
    assert_eq!(builder.push_node(paragraph("second")), 5);
    assert_eq!(builder.depth(), 2);
    let parents: Vec<Option<usize>> = (0..6).map(|handle| builder.parent(handle)).collect();
    assert_eq!(parents, vec![None, None, Some(1), Some(1), Some(1), Some(4)]);
    let children = builder.finish();
    let expected = vec![
        paragraph("before"),
        Node::Heading {
            level: 2,
            content: vec![],
            subnodes: vec![
                paragraph("first"),
                Node::List { items: vec![] },
                Node::Heading { level: 3, content: vec![], subnodes: vec![paragraph("second")] },
            ],
        },
    ];
    assert_eq!(children, expected);
}

#[test]
fn test_builder_keeps_children_that_a_heading_brings() {
    let mut builder = Builder::new();
    builder.push_node(Node::Heading {
        level: 1,
        content: vec![],
        subnodes: vec![paragraph("own")],
    });
    builder.push_node(paragraph("later"));
    assert_eq!(
        builder.finish(),
        vec![Node::Heading {
            level: 1,
            content: vec![],
            subnodes: vec![paragraph("own"), paragraph("later")],
        }]
    );
}

#[test]
fn test_empty_builder() {
    let builder = Builder::new();
    assert_eq!(builder.len(), 0);
    assert_eq!(builder.finish(), Vec::<Node>::new());
}

#[test]
fn test_empty_stream_is_an_empty_document() {
    assert_eq!(Node::parse_document(&[], ErrorPolicy::Abort), Ok(Node::Document(vec![])));
    assert_eq!(Node::parse_document(&[], ErrorPolicy::Skip), Ok(Node::Document(vec![])));
    assert_eq!(Node::parse_nodes(&[], ErrorPolicy::Abort), Ok(vec![]));
}

#[test]
fn test_document_with_paragraphs_under_headings() {
    let mut tokens = paragraph_tokens("lead");
    tokens.extend(heading_tokens(2, "A"));
    tokens.extend(paragraph_tokens("under A"));
    tokens.extend(heading_tokens(1, "B"));
    tokens.extend(paragraph_tokens("under B"));
    let document = Node::parse_document(&tokens, ErrorPolicy::Abort).unwrap();
    let expected = Node::Document(vec![
        paragraph("lead"),
        heading(2, "A", vec![paragraph("under A")]),
        heading(1, "B", vec![paragraph("under B")]),
    ]);
    assert_eq!(document, expected);
}

#[test]
fn test_span_outside_every_block_is_a_text_node() {
    let tokens = vec![text("loose"), Token::SoftBreak, Token::HardBreak];
    let nodes = Node::parse_nodes(&tokens, ErrorPolicy::Abort).unwrap();
    assert_eq!(
        nodes,
        vec![Node::Text(plain("loose")), Node::Text(Text::SoftBreak), Node::Text(Text::HardBreak)]
    );
}

#[test]
fn test_heading_with_several_spans() {
    let tokens = vec![
        Token::BlockStart(BlockKind::Heading(2)),
        text("Deck "),
        Token::InlineStart(InlineKind::Strong),
        text("name"),
        Token::InlineEnd(InlineKind::Strong),
        Token::BlockEnd(BlockKind::Heading(2)),
    ];
    assert_eq!(
        Node::parse_tag(&tokens, 0),
        Ok((
            Node::Heading {
                level: 2,
                content: vec![plain("Deck "), Text::Bold("name".to_string())],
                subnodes: vec![],
            },
            6
        ))
    );
}

#[test]
fn test_heading_level_out_of_range() {
    assert_eq!(
        Node::parse_document(&heading_tokens(0, "none"), ErrorPolicy::Abort),
        Err(SpanError::UnsupportedNesting)
    );
    assert_eq!(
        Node::parse_document(&heading_tokens(7, "deep"), ErrorPolicy::Abort),
        Err(SpanError::UnsupportedNesting)
    );
    assert!(Node::parse_document(&heading_tokens(6, "deepest"), ErrorPolicy::Abort).is_ok());
}

#[test]
fn test_heading_end_of_another_level() {
    let tokens = vec![
        Token::BlockStart(BlockKind::Heading(1)),
        text("title"),
        Token::BlockEnd(BlockKind::Heading(2)),
    ];
    assert_eq!(Node::parse_document(&tokens, ErrorPolicy::Abort), Err(SpanError::TagMismatch));
}

#[test]
fn test_block_end_of_another_kind() {
    let tokens = vec![
        Token::BlockStart(BlockKind::Paragraph),
        text("body"),
        Token::BlockEnd(BlockKind::Heading(1)),
    ];
    assert_eq!(Node::parse_document(&tokens, ErrorPolicy::Abort), Err(SpanError::TagMismatch));
}

#[test]
fn test_block_end_without_start() {
    let tokens = vec![Token::BlockEnd(BlockKind::Paragraph)];
    assert_eq!(Node::parse_document(&tokens, ErrorPolicy::Abort), Err(SpanError::TagMismatch));
    assert_eq!(Node::parse_tag(&tokens, 0), Err(SpanError::TagMismatch));
}

#[test]
fn test_unterminated_blocks() {
    let tokens = vec![Token::BlockStart(BlockKind::Paragraph), text("body")];
    assert_eq!(
        Node::parse_document(&tokens, ErrorPolicy::Abort),
        Err(SpanError::UnterminatedSpan)
    );
    let tokens = vec![Token::BlockStart(BlockKind::Heading(1))];
    assert_eq!(
        Node::parse_document(&tokens, ErrorPolicy::Abort),
        Err(SpanError::UnterminatedSpan)
    );
    let tokens = vec![Token::BlockStart(BlockKind::List(false))];
    assert_eq!(
        Node::parse_document(&tokens, ErrorPolicy::Abort),
        Err(SpanError::UnterminatedSpan)
    );
    let tokens =
        vec![Token::BlockStart(BlockKind::List(false)), Token::BlockStart(BlockKind::ListItem)];
    assert_eq!(
        Node::parse_document(&tokens, ErrorPolicy::Abort),
        Err(SpanError::UnterminatedSpan)
    );
}

#[test]
fn test_block_inside_a_paragraph() {
    let tokens = vec![
        Token::BlockStart(BlockKind::Paragraph),
        Token::BlockStart(BlockKind::Heading(1)),
        Token::BlockEnd(BlockKind::Heading(1)),
        Token::BlockEnd(BlockKind::Paragraph),
    ];
    assert_eq!(
        Node::parse_document(&tokens, ErrorPolicy::Abort),
        Err(SpanError::UnsupportedNesting)
    );
}

#[test]
fn test_list_item_outside_a_list() {
    let tokens = vec![
        Token::BlockStart(BlockKind::ListItem),
        text("item"),
        Token::BlockEnd(BlockKind::ListItem),
    ];
    assert_eq!(
        Node::parse_document(&tokens, ErrorPolicy::Abort),
        Err(SpanError::UnsupportedNesting)
    );
}

#[test]
fn test_span_error_passes_through_the_builder() {
    let mut tokens = heading_tokens(1, "good");
    tokens.extend(vec![
        Token::BlockStart(BlockKind::Paragraph),
        Token::InlineStart(InlineKind::Strong),
        text("b"),
        Token::InlineEnd(InlineKind::Emphasis),
        Token::BlockEnd(BlockKind::Paragraph),
    ]);
    assert_eq!(Node::parse_document(&tokens, ErrorPolicy::Abort), Err(SpanError::TagMismatch));
}

fn item(content: &str, order: ListOrderType, subnodes: Vec<Node>) -> Node {
    Node::ListItem { text: vec![plain(content)], order, subnodes }
}

fn item_tokens(content: &str) -> Vec<Token> {
    vec![
        Token::BlockStart(BlockKind::ListItem),
        text(content),
        Token::BlockEnd(BlockKind::ListItem),
    ]
}

#[test]
fn test_unordered_list() {
    let mut tokens = vec![Token::BlockStart(BlockKind::List(false))];
    tokens.extend(item_tokens("x"));
    tokens.extend(item_tokens("y"));
    tokens.push(Token::BlockEnd(BlockKind::List(false)));
    let nodes = Node::parse_nodes(&tokens, ErrorPolicy::Abort).unwrap();
    assert_eq!(
        nodes,
        vec![Node::List {
            items: vec![
                item("x", ListOrderType::Unordered, vec![]),
                item("y", ListOrderType::Unordered, vec![]),
            ],
        }]
    );
}

#[test]
fn test_ordered_list_numbers_its_items_from_one() {
    let mut tokens = vec![Token::BlockStart(BlockKind::List(true))];
    tokens.extend(item_tokens("x"));
    tokens.extend(item_tokens("y"));
    tokens.extend(item_tokens("z"));
    tokens.push(Token::BlockEnd(BlockKind::List(true)));
    assert_eq!(
        Node::parse_list(&tokens, 0),
        Ok((
            Node::List {
                items: vec![
                    item("x", ListOrderType::Ordered(1), vec![]),
                    item("y", ListOrderType::Ordered(2), vec![]),
                    item("z", ListOrderType::Ordered(3), vec![]),
                ],
            },
            11
        ))
    );
}

#[test]
fn test_nested_list_and_paragraph_in_an_item() {
    let mut tokens = vec![
        Token::BlockStart(BlockKind::List(false)),
        Token::BlockStart(BlockKind::ListItem),
        text("Templates:"),
        Token::BlockStart(BlockKind::List(true)),
    ];
    tokens.extend(item_tokens("Simple"));
    tokens.extend(item_tokens("Reverse"));
    tokens.push(Token::BlockEnd(BlockKind::List(true)));
    tokens.extend(paragraph_tokens("more"));
    tokens.push(text(" tail"));
    tokens.push(Token::BlockEnd(BlockKind::ListItem));
    tokens.push(Token::BlockEnd(BlockKind::List(false)));
    let nodes = Node::parse_nodes(&tokens, ErrorPolicy::Abort).unwrap();
    let expected = Node::List {
        items: vec![Node::ListItem {
            text: vec![plain("Templates:"), plain(" tail")],
            order: ListOrderType::Unordered,
            subnodes: vec![
                Node::List {
                    items: vec![
                        item("Simple", ListOrderType::Ordered(1), vec![]),
                        item("Reverse", ListOrderType::Ordered(2), vec![]),
                    ],
                },
                paragraph("more"),
            ],
        }],
    };
    assert_eq!(nodes, vec![expected]);
}

#[test]
fn test_list_faults() {
    let tokens = vec![
        Token::BlockStart(BlockKind::List(false)),
        text("no item"),
        Token::BlockEnd(BlockKind::List(false)),
    ];
    assert_eq!(Node::parse_list(&tokens, 0), Err(SpanError::UnsupportedNesting));
    let tokens =
        vec![Token::BlockStart(BlockKind::List(false)), Token::BlockEnd(BlockKind::List(true))];
    assert_eq!(Node::parse_list(&tokens, 0), Err(SpanError::TagMismatch));
    let tokens = vec![
        Token::BlockStart(BlockKind::List(false)),
        Token::BlockStart(BlockKind::ListItem),
        Token::BlockEnd(BlockKind::List(false)),
    ];
    assert_eq!(Node::parse_list(&tokens, 0), Err(SpanError::TagMismatch));
    let tokens = vec![
        Token::BlockStart(BlockKind::List(false)),
        Token::BlockStart(BlockKind::ListItem),
        Token::BlockStart(BlockKind::Heading(1)),
    ];
    assert_eq!(Node::parse_list(&tokens, 0), Err(SpanError::UnsupportedNesting));
    assert_eq!(Node::parse_list(&tokens, 1), Err(SpanError::UnsupportedNesting));
    assert_eq!(Node::parse_list(&tokens, 3), Err(SpanError::UnterminatedSpan));
    assert_eq!(
        Node::parse_list_item(&tokens, 0, ListOrderType::Unordered),
        Err(SpanError::UnsupportedNesting)
    );
}

#[test]
fn test_empty_list_and_empty_item() {
    let tokens =
        vec![Token::BlockStart(BlockKind::List(false)), Token::BlockEnd(BlockKind::List(false))];
    assert_eq!(Node::parse_list(&tokens, 0), Ok((Node::List { items: vec![] }, 2)));
    let tokens =
        vec![Token::BlockStart(BlockKind::ListItem), Token::BlockEnd(BlockKind::ListItem)];
    assert_eq!(
        Node::parse_list_item(&tokens, 0, ListOrderType::Ordered(4)),
        Ok((
            Node::ListItem { text: vec![], order: ListOrderType::Ordered(4), subnodes: vec![] },
            2
        ))
    );
}

#[test]
fn test_skip_policy_leaves_the_faulty_block_out() {
    let mut tokens = heading_tokens(1, "good");
    tokens.extend(vec![
        Token::BlockStart(BlockKind::Paragraph),
        Token::InlineStart(InlineKind::Strong),
        text("b"),
        Token::InlineEnd(InlineKind::Emphasis),
        Token::BlockEnd(BlockKind::Paragraph),
    ]);
    tokens.extend(paragraph_tokens("after"));
    assert_eq!(Node::parse_document(&tokens, ErrorPolicy::Abort), Err(SpanError::TagMismatch));
    assert_eq!(
        Node::parse_document(&tokens, ErrorPolicy::Skip),
        Ok(Node::Document(vec![heading(1, "good", vec![paragraph("after")])]))
    );
}

#[test]
fn test_skip_policy_skips_to_the_balancing_end_tag() {
    let mut tokens = vec![
        Token::BlockStart(BlockKind::List(false)),
        Token::BlockStart(BlockKind::ListItem),
        Token::BlockStart(BlockKind::Heading(1)),
        Token::BlockEnd(BlockKind::Heading(1)),
        Token::BlockEnd(BlockKind::ListItem),
        Token::BlockEnd(BlockKind::List(false)),
    ];
    assert_eq!(Node::skip_block(&tokens, 0), 6);
    assert_eq!(Node::skip_block(&tokens, 1), 5);
    assert_eq!(Node::skip_block(&tokens, 2), 4);
    assert_eq!(Node::skip_block(&tokens, 3), 4);
    tokens.extend(paragraph_tokens("kept"));
    assert_eq!(
        Node::parse_document(&tokens, ErrorPolicy::Skip),
        Ok(Node::Document(vec![paragraph("kept")]))
    );
}

#[test]
fn test_skip_policy_on_a_stream_of_faults() {
    let tokens = vec![
        Token::BlockEnd(BlockKind::Paragraph),
        Token::InlineEnd(InlineKind::Strong),
        Token::BlockStart(BlockKind::Paragraph),
        text("open"),
    ];
    assert_eq!(Node::skip_block(&tokens, 1), 2);
    assert_eq!(Node::skip_block(&tokens, 2), 4);
    assert_eq!(Node::parse_document(&tokens, ErrorPolicy::Skip), Ok(Node::Document(vec![])));
}

#[test]
fn test_parse_paragraph_and_heading_positions() {
    let mut tokens = paragraph_tokens("one");
    tokens.extend(heading_tokens(3, "two"));
    assert_eq!(Node::parse_paragraph(&tokens, 0), Ok((paragraph("one"), 3)));
    assert_eq!(Node::parse_heading(&tokens, 3), Ok((heading(3, "two", vec![]), 6)));
    assert_eq!(Node::parse_paragraph(&tokens, 3), Err(SpanError::UnsupportedNesting));
    assert_eq!(Node::parse_heading(&tokens, 0), Err(SpanError::UnsupportedNesting));
    assert_eq!(Node::parse_paragraph(&tokens, 6), Err(SpanError::UnterminatedSpan));
    assert_eq!(Node::parse_tag(&tokens, 6), Err(SpanError::UnterminatedSpan));
}

#[test]
fn test_walk_meets_the_blocks_in_the_order_of_the_pushes() {
    let pushed = vec![
        ("Text: lead", None),
        ("Heading: #H2 a", Some(2)),
        ("Text: under a", None),
        ("Heading: #H3 b", Some(3)),
        ("Text: under b", None),
        ("Heading: #H3 c", Some(3)),
        ("Heading: #H1 d", Some(1)),
        ("Text: under d", None),
        ("Heading: #H4 e", Some(4)),
    ];
    let mut builder = Builder::new();
    for (label, level) in &pushed {
        let content = label.split_once(' ').unwrap().1;
        let node = match level {
            Some(level) => {
                let title = content.split_once(' ').unwrap().1;
                heading(*level, title, vec![])
            }
            None => Node::Text(plain(content)),
        };
        builder.push_node(node);
    }
    let document = Node::Document(builder.finish());
    let labels: Vec<String> =
        document.depth_first().iter().skip(1).map(|node| node.label()).collect();
    let expected: Vec<String> = pushed.iter().map(|(label, _)| label.to_string()).collect();
    assert_eq!(labels, expected);
    assert_eq!(
        document.tree_to_string(),
        "Document\n\
         ├─Text: lead\n\
         ├─Heading: #H2 a\n\
         │ ├─Text: under a\n\
         │ ├─Heading: #H3 b\n\
         │ │ └─Text: under b\n\
         │ └─Heading: #H3 c\n\
         └─Heading: #H1 d\n\
         \x20 ├─Text: under d\n\
         \x20 └─Heading: #H4 e"
    );
}
