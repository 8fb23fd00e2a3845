use ankimdown::markdown::node::Node;
use ankimdown::markdown::parser::ErrorPolicy;
use ankimdown::markdown::text::Text;
use ankimdown::markdown::token::{BlockKind, InlineKind, Token};
use pulldown_cmark::{Event, Options, Parser, Tag, TagEnd};

fn start_token(tag: Tag) -> Token {
    match tag {
        Tag::Paragraph => Token::BlockStart(BlockKind::Paragraph),
        Tag::Heading { level, .. } => Token::BlockStart(BlockKind::Heading(level as usize)),
        Tag::List(first) => Token::BlockStart(BlockKind::List(first.is_some())),
        Tag::Item => Token::BlockStart(BlockKind::ListItem),
        Tag::Emphasis => Token::InlineStart(InlineKind::Emphasis),
        Tag::Strong => Token::InlineStart(InlineKind::Strong),
        Tag::Strikethrough => Token::InlineStart(InlineKind::Strikethrough),
        other => panic!("no token for {:?}", other),
    }
}

fn end_token(tag: TagEnd) -> Token {
    match tag {
        TagEnd::Paragraph => Token::BlockEnd(BlockKind::Paragraph),
        TagEnd::Heading(level) => Token::BlockEnd(BlockKind::Heading(level as usize)),
        TagEnd::List(ordered) => Token::BlockEnd(BlockKind::List(ordered)),
        TagEnd::Item => Token::BlockEnd(BlockKind::ListItem),
        TagEnd::Emphasis => Token::InlineEnd(InlineKind::Emphasis),
        TagEnd::Strong => Token::InlineEnd(InlineKind::Strong),
        TagEnd::Strikethrough => Token::InlineEnd(InlineKind::Strikethrough),
        other => panic!("no token for {:?}", other),
    }
}

fn tokens_of(events: Vec<Event>) -> Vec<Token> {
    let mut tokens = Vec::new();
    for event in events {
        tokens.push(match event {
            Event::Start(tag) => start_token(tag),
            Event::End(tag) => end_token(tag),
            Event::Text(text) => Token::Text(text.to_string()),
            Event::SoftBreak => Token::SoftBreak,
            Event::HardBreak => Token::HardBreak,
            other => panic!("no token for {:?}", other),
        });
    }
    tokens
}

fn tokenize(markdown: &str) -> Vec<Token> {
    let mut options = Options::empty();
    options.insert(Options::ENABLE_STRIKETHROUGH);
    tokens_of(Parser::new_ext(markdown, options).collect())
}

#[test]
fn test_parse_events() {
    let markdown = "# Heading\n\nThis is a paragraph with _italic_ and **bold** text.";
    let parser = pulldown_cmark::Parser::new(markdown);
    let events: Vec<_> = parser.collect();

    let nodes = Node::parse_nodes(&tokens_of(events), ErrorPolicy::Abort).unwrap();

    assert_eq!(nodes.len(), 1);

    let (level, content, subnodes) = match &nodes[0] {
        Node::Heading { level, content, subnodes } => (*level, content, subnodes),
        other => panic!("no heading: {:?}", other),
    };

    assert_eq!(level, 1);
    assert_eq!(content, &vec![Text::Plain("Heading".to_string())]);

    assert_eq!(subnodes.len(), 1);

    let children = match subnodes.last().unwrap() {
        Node::Paragraph(children) => children,
        other => panic!("no paragraph: {:?}", other),
    };

    assert_eq!(children.len(), 5);
}

#[test]
fn test_tokens_of_a_small_document() {
    assert_eq!(
        tokenize("# Deck **name**\n\n1. a ~~greeting~~\n"),
        vec![
            Token::BlockStart(BlockKind::Heading(1)),
            Token::Text("Deck ".to_string()),
            Token::InlineStart(InlineKind::Strong),
            Token::Text("name".to_string()),
            Token::InlineEnd(InlineKind::Strong),
            Token::BlockEnd(BlockKind::Heading(1)),
            Token::BlockStart(BlockKind::List(true)),
            Token::BlockStart(BlockKind::ListItem),
            Token::Text("a ".to_string()),
            Token::InlineStart(InlineKind::Strikethrough),
            Token::Text("greeting".to_string()),
            Token::InlineEnd(InlineKind::Strikethrough),
            Token::BlockEnd(BlockKind::ListItem),
            Token::BlockEnd(BlockKind::List(true)),
        ]
    );
}

fn round_trip(markdown: &str) {
    let document = Node::parse_document(&tokenize(markdown), ErrorPolicy::Abort).unwrap();
    let rendered = document.to_markdown_with(0);
    let again = Node::parse_document(&tokenize(&rendered), ErrorPolicy::Abort).unwrap();
    assert_eq!(again, document);
    assert_eq!(again.to_markdown_with(0), rendered);
}

#[test]
fn test_round_trip_through_markdown() {
    round_trip("");
    round_trip("# Intro\n\n## A\n\n### A.1\n\n# Next\n");
    round_trip("lead\n\n# hello\n\n## Meaning\n\na **greeting** in _few_ ~~many~~ words\n");
    round_trip("# Deck\n\none\ntwo\\\nthree\n\n- x\n- y\n\n## Sub\n\n1. first\n2. second\n");
    round_trip("### deep\n\n# top\n\ntext\n\n## sub\n\nmore text\n");
}

#[test]
fn test_sample_document() {
    let markdown = "\n# Deck __name__\n\n# hello\n## Meaning\na **greeting**\n";
    let document = Node::parse_document(&tokenize(markdown), ErrorPolicy::Abort).unwrap();
    let expected = Node::Document(vec![
        Node::Heading {
            level: 1,
            content: vec![Text::Plain("Deck ".to_string()), Text::Bold("name".to_string())],
            subnodes: vec![],
        },
        Node::Heading {
            level: 1,
            content: vec![Text::Plain("hello".to_string())],
            subnodes: vec![Node::Heading {
                level: 2,
                content: vec![Text::Plain("Meaning".to_string())],
                subnodes: vec![Node::Paragraph(vec![
                    Node::Text(Text::Plain("a ".to_string())),
                    Node::Text(Text::Bold("greeting".to_string())),
                ])],
            }],
        },
    ]);
    assert_eq!(document, expected);
}

#[test]
fn test_markup_in_plain_text_does_not_come_back() {
    let tokens = vec![
        Token::BlockStart(BlockKind::Paragraph),
        Token::Text("_x_".to_string()),
        Token::BlockEnd(BlockKind::Paragraph),
    ];
    let document = Node::parse_document(&tokens, ErrorPolicy::Abort).unwrap();
    assert_eq!(
        document,
        Node::Document(vec![Node::Paragraph(vec![Node::Text(Text::Plain("_x_".to_string()))])])
    );
    let rendered = document.to_markdown_with(0);
    assert_eq!(rendered, "_x_\n\n");
    let again = Node::parse_document(&tokenize(&rendered), ErrorPolicy::Abort).unwrap();
    assert_eq!(
        again,
        Node::Document(vec![Node::Paragraph(vec![Node::Text(Text::Italic("x".to_string()))])])
    );
}
