use ankimdown::markdown::heading::Heading;
use ankimdown::markdown::node::{ListOrderType, Node};
use ankimdown::markdown::render::{decimal_string, Branch, DEFAULT_INDENT};
use ankimdown::markdown::text::Text;

fn plain(content: &str) -> Text {
    Text::Plain(content.to_string())
}

fn heading(level: usize, title: &str, subnodes: Vec<Node>) -> Node {
    Node::Heading { level, content: vec![plain(title)], subnodes }
}

fn paragraph(content: &str) -> Node {
    Node::Paragraph(vec![Node::Text(plain(content))])
}

fn item(content: &str, order: ListOrderType, subnodes: Vec<Node>) -> Node {
    Node::ListItem { text: vec![plain(content)], order, subnodes }
}

fn sample() -> Node {
    Node::Document(vec![
        heading(
            1,
            "Intro",
            vec![
                Node::Paragraph(vec![
                    Node::Text(plain("a")),
                    Node::Text(Text::Italic("b".to_string())),
                ]),
                heading(
                    2,
                    "A",
                    vec![Node::List {
                        items: vec![
                            item("x", ListOrderType::Unordered, vec![paragraph("p")]),
                            item("y", ListOrderType::Unordered, vec![]),
                        ],
                    }],
                ),
            ],
        ),
        heading(1, "Next", vec![]),
    ])
}

#[test]
fn test_decimal_string() {
    assert_eq!(decimal_string(0), "0");
    assert_eq!(decimal_string(7), "7");
    assert_eq!(decimal_string(10), "10");
    assert_eq!(decimal_string(12345), "12345");
    assert_eq!(decimal_string(9876543210), "9876543210");
    assert_eq!(decimal_string(usize::MAX), format!("{}", usize::MAX));
}

#[test]
fn test_heading_to_markdown() {
    let heading = Heading {
        level: 3,
        content: vec![plain("Deck "), Text::Bold("name".to_string())],
    };
    assert_eq!(heading.to_markdown(), "### Deck **name**");
    assert_eq!(Heading { level: 1, content: vec![] }.to_markdown(), "# ");
}

#[test]
fn test_list_marker_to_markdown() {
    assert_eq!(ListOrderType::Unordered.to_markdown(), "-");
    assert_eq!(ListOrderType::Ordered(1).to_markdown(), "1.");
    assert_eq!(ListOrderType::Ordered(120).to_markdown(), "120.");
}

#[test]
fn test_document_to_markdown() {
    assert_eq!(DEFAULT_INDENT, 2);
    assert_eq!(
        sample().to_markdown(),
        "# Intro\n  a_b_\n\n  ## A\n    - x\n      p\n\n    - y\n# Next\n"
    );
}

#[test]
fn test_document_to_markdown_with_another_indentation() {
    assert_eq!(
        sample().to_markdown_with(0),
        "# Intro\na_b_\n\n## A\n- x\np\n\n- y\n# Next\n"
    );
    assert_eq!(
        sample().to_markdown_with(1),
        "# Intro\n a_b_\n\n ## A\n  - x\n   p\n\n  - y\n# Next\n"
    );
    assert_eq!(sample().to_markdown_with(2), sample().to_markdown());
}

#[test]
fn test_single_nodes_to_markdown() {
    assert_eq!(Node::Document(vec![]).to_markdown(), "");
    assert_eq!(Node::Text(Text::Bold("b".to_string())).to_markdown(), "**b**");
    assert_eq!(paragraph("p").to_markdown(), "p");
    assert_eq!(Node::Paragraph(vec![]).to_markdown(), "");
    assert_eq!(heading(2, "h", vec![]).to_markdown(), "## h\n");
    assert_eq!(item("i", ListOrderType::Ordered(3), vec![]).to_markdown(), "3. i\n");
    assert_eq!(Node::List { items: vec![] }.to_markdown(), "");
    assert_eq!(
        Node::Document(vec![paragraph("one"), paragraph("two")]).to_markdown(),
        "one\n\ntwo\n\n"
    );
    assert_eq!(
        Node::Document(vec![Node::Text(plain("one")), Node::Text(plain("two"))]).to_markdown(),
        "onetwo"
    );
    assert_eq!(
        heading(1, "h", vec![Node::Text(plain("one")), paragraph("two")]).to_markdown(),
        "# h\n  one  two\n\n"
    );
}

#[test]
fn test_breaks_to_markdown() {
    let node = Node::Paragraph(vec![
        Node::Text(plain("a")),
        Node::Text(Text::SoftBreak),
        Node::Text(plain("b")),
        Node::Text(Text::HardBreak),
        Node::Text(Text::Strikethrough("c".to_string())),
    ]);
    assert_eq!(node.to_markdown(), "a\nb\\\n~~c~~");
}

#[test]
fn test_tree_to_string() {
    assert_eq!(
        sample().tree_to_string(),
        "Document\n\
         ├─Heading: #H1 Intro\n\
         │ ├─Paragraph\n\
         │ │ ├─Text: a\n\
         │ │ └─Text: _b_\n\
         │ └─Heading: #H2 A\n\
         │   └─List\n\
         │     ├─ListItem: Unordered x\n\
         │     │ └─Paragraph\n\
         │     │   └─Text: p\n\
         │     └─ListItem: Unordered y\n\
         └─Heading: #H1 Next"
    );
}

#[test]
fn test_tree_to_string_of_single_nodes() {
    assert_eq!(Node::Document(vec![]).tree_to_string(), "Document");
    assert_eq!(Node::Text(plain("t")).tree_to_string(), "Text: t");
    assert_eq!(Node::Paragraph(vec![]).tree_to_string(), "Paragraph");
    assert_eq!(Node::List { items: vec![] }.tree_to_string(), "List");
    assert_eq!(heading(6, "deep", vec![]).tree_to_string(), "Heading: #H6 deep");
    assert_eq!(
        item("i", ListOrderType::Ordered(12), vec![]).tree_to_string(),
        "ListItem: Ordered 12 i"
    );
    assert_eq!(
        item("i", ListOrderType::Unordered, vec![]).tree_to_string(),
        "ListItem: Unordered i"
    );
}

#[test]
fn test_node_label() {
    assert_eq!(sample().label(), "Document");
    assert_eq!(heading(2, "h", vec![paragraph("p")]).label(), "Heading: #H2 h");
}

#[test]
fn test_tree_view_appends_with_prefix_and_branch() {
    let node = heading(1, "h", vec![paragraph("p")]);
    let mut out = String::from("top");
    node.tree_view(&mut out, "│ ", Branch::Middle);
    assert_eq!(out, "top\n│ ├─Heading: #H1 h\n│ │ └─Paragraph\n│ │   └─Text: p");
    let mut out = String::new();
    node.tree_view(&mut out, "", Branch::Last);
    assert_eq!(out, "\n└─Heading: #H1 h\n  └─Paragraph\n    └─Text: p");
}

#[test]
fn test_children() {
    let document = sample();
    assert_eq!(document.children().unwrap().len(), 2);
    assert_eq!(Node::Text(plain("t")).children(), None);
    assert_eq!(paragraph("p").children(), Some(&vec![Node::Text(plain("p"))]));
    assert_eq!(Node::List { items: vec![] }.children(), Some(&vec![]));
    assert_eq!(
        item("i", ListOrderType::Unordered, vec![paragraph("p")]).children(),
        Some(&vec![paragraph("p")])
    );
    assert_eq!(heading(1, "h", vec![paragraph("p")]).children(), Some(&vec![paragraph("p")]));
}

#[test]
fn test_depth_first_walk() {
    let document = sample();
    let labels: Vec<String> = document.depth_first().iter().map(|node| node.label()).collect();
    assert_eq!(
        labels,
        vec![
            "Document",
            "Heading: #H1 Intro",
            "Paragraph",
            "Text: a",
            "Text: _b_",
            "Heading: #H2 A",
            "List",
            "ListItem: Unordered x",
            "Paragraph",
            "Text: p",
            "ListItem: Unordered y",
            "Heading: #H1 Next",
        ]
    );
    let leaf = Node::Text(plain("t"));
    assert_eq!(leaf.depth_first(), vec![&leaf]);
}
