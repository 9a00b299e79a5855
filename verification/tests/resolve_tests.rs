use kdl_query::document::{DocEntry, DocNode, Document};
use kdl_query::error::{ParseError, ParseStringError};
use kdl_query::parser::Path;
use kdl_query::resolver::Resolver;
use kdl_query::value::Value;

fn iv(i: i128) -> Value {
    Value::Integer(i)
}

fn sv(s: &str) -> Value {
    Value::String(s.to_string())
}

fn arg(v: Value) -> DocEntry {
    DocEntry { name: None, value: v }
}

fn prop(name: &str, v: Value) -> DocEntry {
    DocEntry {
        name: Some(name.to_string()),
        value: v,
    }
}

fn leaf(name: &str, entries: Vec<DocEntry>) -> DocNode {
    DocNode {
        name: name.to_string(),
        entries,
        children: None,
    }
}

fn parent(name: &str, entries: Vec<DocEntry>, children: Vec<DocNode>) -> DocNode {
    DocNode {
        name: name.to_string(),
        entries,
        children: Some(Document { nodes: children }),
    }
}

/// The document shared by the resolver tests:
///
/// ```text
/// node1
/// node2 1 2 3
/// node2
/// node3 a b c
/// node3 0 2 0
/// node_prop hello=world
/// node_prop hello=world 123
/// node_prop hello=world foo=bar
/// node_children {
///     node1 1
///     node2 2
///     node3 3
/// }
/// node_multiple {
///     node 1
///     node 2
///     node 3
///     node 4
///     node 5
/// }
/// article {
///     contents {
///         section "First section" {
///             paragraph "This is the first paragraph"
///             paragraph "This is the second paragraph"
///         }
///     }
///     contents {
///         section "Second section" {
///             paragraph "This is the third paragraph"
///             paragraph "This is the forth paragraph"
///         }
///     }
/// }
/// ```
fn test_doc() -> Document {
    Document {
        nodes: vec![
            leaf("node1", vec![]),
            leaf("node2", vec![arg(iv(1)), arg(iv(2)), arg(iv(3))]),
            leaf("node2", vec![]),
            leaf("node3", vec![arg(sv("a")), arg(sv("b")), arg(sv("c"))]),
            leaf("node3", vec![arg(iv(0)), arg(iv(2)), arg(iv(0))]),
            leaf("node_prop", vec![prop("hello", sv("world"))]),
            leaf("node_prop", vec![prop("hello", sv("world")), arg(iv(123))]),
            leaf(
                "node_prop",
                vec![prop("hello", sv("world")), prop("foo", sv("bar"))],
            ),
            parent(
                "node_children",
                vec![],
                vec![
                    leaf("node1", vec![arg(iv(1))]),
                    leaf("node2", vec![arg(iv(2))]),
                    leaf("node3", vec![arg(iv(3))]),
                ],
            ),
            parent(
                "node_multiple",
                vec![],
                vec![
                    leaf("node", vec![arg(iv(1))]),
                    leaf("node", vec![arg(iv(2))]),
                    leaf("node", vec![arg(iv(3))]),
                    leaf("node", vec![arg(iv(4))]),
                    leaf("node", vec![arg(iv(5))]),
                ],
            ),
            parent(
                "article",
                vec![],
                vec![
                    parent(
                        "contents",
                        vec![],
                        vec![parent(
                            "section",
                            vec![arg(sv("First section"))],
                            vec![
                                leaf("paragraph", vec![arg(sv("This is the first paragraph"))]),
                                leaf("paragraph", vec![arg(sv("This is the second paragraph"))]),
                            ],
                        )],
                    ),
                    parent(
                        "contents",
                        vec![],
                        vec![parent(
                            "section",
                            vec![arg(sv("Second section"))],
                            vec![
                                leaf("paragraph", vec![arg(sv("This is the third paragraph"))]),
                                leaf("paragraph", vec![arg(sv("This is the forth paragraph"))]),
                            ],
                        )],
                    ),
                ],
            ),
        ],
    }
}

fn run(doc: &Document, query: &str) -> Vec<(String, Vec<DocEntry>)> {
    let path = Path::parse(query).unwrap();
    Resolver::resolve(doc, path)
        .into_iter()
        .map(|n| (n.name().clone(), n.entries().clone()))
        .collect()
}

fn expect(name: &str, entries: Vec<DocEntry>) -> (String, Vec<DocEntry>) {
    (name.to_string(), entries)
}

#[test]
fn query_named_node() {
    let doc = test_doc();
    assert_eq!(
        run(&doc, "node2"),
        vec![
            expect("node2", vec![arg(iv(1)), arg(iv(2)), arg(iv(3))]),
            expect("node2", vec![]),
        ]
    );
}

#[test]
fn query_any_node() {
    let doc = test_doc();
    assert_eq!(
        run(&doc, "node_children/*"),
        vec![
            expect("node1", vec![arg(iv(1))]),
            expect("node2", vec![arg(iv(2))]),
            expect("node3", vec![arg(iv(3))]),
        ]
    );
}

#[test]
fn query_parent_node() {
    let doc = test_doc();
    assert_eq!(
        run(&doc, "node_children/node1/.."),
        vec![expect("node_children", vec![])]
    );
}

#[test]
fn query_parent_node_multi() {
    let doc = test_doc();
    assert_eq!(
        run(&doc, "node_children/*/.."),
        vec![
            expect("node_children", vec![]),
            expect("node_children", vec![]),
            expect("node_children", vec![]),
        ]
    );
}

#[test]
fn query_ranges() {
    let doc = test_doc();
    assert_eq!(
        run(&doc, "node_multiple/*{1}"),
        vec![expect("node", vec![arg(iv(2))])]
    );
    assert_eq!(
        run(&doc, "node_multiple/..{0}"),
        vec![expect("node_multiple", vec![])]
    );
    assert_eq!(run(&doc, "node2/..{1}"), vec![]);

    assert_eq!(
        run(&doc, "node_multiple/node{1}"),
        vec![expect("node", vec![arg(iv(2))])]
    );
    assert_eq!(
        run(&doc, "node_multiple/node{1..}"),
        vec![
            expect("node", vec![arg(iv(2))]),
            expect("node", vec![arg(iv(3))]),
            expect("node", vec![arg(iv(4))]),
            expect("node", vec![arg(iv(5))]),
        ]
    );
    assert_eq!(
        run(&doc, "node_multiple/node{..3}"),
        vec![
            expect("node", vec![arg(iv(1))]),
            expect("node", vec![arg(iv(2))]),
            expect("node", vec![arg(iv(3))]),
        ]
    );
    assert_eq!(
        run(&doc, "node_multiple/node{1..3}"),
        vec![
            expect("node", vec![arg(iv(2))]),
            expect("node", vec![arg(iv(3))]),
        ]
    );
    assert_eq!(
        run(&doc, "node_multiple/node{..}"),
        vec![
            expect("node", vec![arg(iv(1))]),
            expect("node", vec![arg(iv(2))]),
            expect("node", vec![arg(iv(3))]),
            expect("node", vec![arg(iv(4))]),
            expect("node", vec![arg(iv(5))]),
        ]
    );
}

#[test]
fn query_entries() {
    let doc = test_doc();
    assert_eq!(
        run(&doc, "*[_ 2]"),
        vec![
            expect("node2", vec![arg(iv(1)), arg(iv(2)), arg(iv(3))]),
            expect("node3", vec![arg(iv(0)), arg(iv(2)), arg(iv(0))]),
        ]
    );
    assert_eq!(
        run(&doc, "*[1=2]"),
        vec![
            expect("node2", vec![arg(iv(1)), arg(iv(2)), arg(iv(3))]),
            expect("node3", vec![arg(iv(0)), arg(iv(2)), arg(iv(0))]),
        ]
    );
    // three arguments, whatever their values
    assert_eq!(
        run(&doc, "*[_ _ _]"),
        vec![
            expect("node2", vec![arg(iv(1)), arg(iv(2)), arg(iv(3))]),
            expect("node3", vec![arg(sv("a")), arg(sv("b")), arg(sv("c"))]),
            expect("node3", vec![arg(iv(0)), arg(iv(2)), arg(iv(0))]),
        ]
    );
    assert_eq!(
        run(&doc, "*[hello=world]"),
        vec![
            expect("node_prop", vec![prop("hello", sv("world"))]),
            expect("node_prop", vec![prop("hello", sv("world")), arg(iv(123))]),
            expect(
                "node_prop",
                vec![prop("hello", sv("world")), prop("foo", sv("bar"))]
            ),
        ]
    );
    assert_eq!(
        run(&doc, "*[hello=world foo=bar]"),
        vec![expect(
            "node_prop",
            vec![prop("hello", sv("world")), prop("foo", sv("bar"))]
        )]
    );
    assert_eq!(
        run(&doc, "*[hello=world 123]"),
        vec![expect(
            "node_prop",
            vec![prop("hello", sv("world")), arg(iv(123))]
        )]
    );
    assert_eq!(
        run(
            &doc,
            "article/contents/section/paragraph[\"This is the first paragraph\"]"
        ),
        vec![expect(
            "paragraph",
            vec![arg(sv("This is the first paragraph"))]
        )]
    );
    assert_eq!(
        run(&doc, "*/*/*/*[\"This is the third paragraph\"]"),
        vec![expect(
            "paragraph",
            vec![arg(sv("This is the third paragraph"))]
        )]
    );
    assert_eq!(
        run(&doc, "article/contents/section[\"Second section\"]/*"),
        vec![
            expect("paragraph", vec![arg(sv("This is the third paragraph"))]),
            expect("paragraph", vec![arg(sv("This is the forth paragraph"))]),
        ]
    );
}

#[test]
fn query_anywhere() {
    let doc = test_doc();
    assert_eq!(
        run(&doc, "article/**"),
        vec![
            expect("contents", vec![]),
            expect("section", vec![arg(sv("First section"))]),
            expect("paragraph", vec![arg(sv("This is the first paragraph"))]),
            expect("paragraph", vec![arg(sv("This is the second paragraph"))]),
            expect("contents", vec![]),
            expect("section", vec![arg(sv("Second section"))]),
            expect("paragraph", vec![arg(sv("This is the third paragraph"))]),
            expect("paragraph", vec![arg(sv("This is the forth paragraph"))]),
        ]
    );
    assert_eq!(
        run(&doc, "article/**/paragraph"),
        vec![
            expect("paragraph", vec![arg(sv("This is the first paragraph"))]),
            expect("paragraph", vec![arg(sv("This is the second paragraph"))]),
            expect("paragraph", vec![arg(sv("This is the third paragraph"))]),
            expect("paragraph", vec![arg(sv("This is the forth paragraph"))]),
        ]
    );
}

#[test]
fn query_error_scenarios() {
    assert_eq!(
        Path::parse("\"hello"),
        Err(ParseError::MalformedString(
            "\"hello".to_string(),
            ParseStringError::MissingEndOfString
        ))
    );
    assert_eq!(
        Path::parse("{1 2}"),
        Err(ParseError::RangeMissingSeparator)
    );
    assert_eq!(Path::parse("{}"), Err(ParseError::RangeEmpty));
}

#[test]
fn query_repeated_is_identical() {
    let doc = test_doc();
    let first = run(&doc, "article/**/paragraph");
    let second = run(&doc, "article/**/paragraph");
    assert_eq!(first, second);
}

#[test]
fn query_wildcard_superset() {
    let doc = test_doc();
    let by_name = run(&doc, "node_prop[hello=world]");
    let any = run(&doc, "*[hello=world]");
    // every named match appears among the wildcard matches, in order
    let mut pos = 0;
    for m in &by_name {
        while pos < any.len() && &any[pos] != m {
            pos += 1;
        }
        assert!(pos < any.len(), "named match missing from wildcard matches");
        pos += 1;
    }
}

#[test]
fn query_value_equality_is_tagged() {
    let doc = Document {
        nodes: vec![
            leaf("n", vec![arg(Value::Integer(1))]),
            leaf("n", vec![arg(Value::Float("1.0".to_string()))]),
            leaf("n", vec![arg(sv("1"))]),
        ],
    };
    // the integer 1 matches only the integer-valued node
    assert_eq!(run(&doc, "n[1]"), vec![expect("n", vec![arg(iv(1))])]);
    // the float text 1.0 matches only the float-valued node
    assert_eq!(
        run(&doc, "n[1.0]"),
        vec![expect("n", vec![arg(Value::Float("1.0".to_string()))])]
    );
}

#[test]
fn query_empty_path_and_root() {
    let doc = test_doc();
    assert_eq!(run(&doc, ""), vec![]);
    // a leading slash marks the root and changes nothing else
    assert_eq!(run(&doc, "/node2"), run(&doc, "node2"));
}

#[test]
fn query_range_is_subslice() {
    let doc = test_doc();
    let all = run(&doc, "node_multiple/node{..}");
    assert_eq!(run(&doc, "node_multiple/node{1..3}"), all[1..3].to_vec());
    assert_eq!(run(&doc, "node_multiple/node{1..}"), all[1..].to_vec());
    assert_eq!(run(&doc, "node_multiple/node{..3}"), all[..3].to_vec());
    assert_eq!(run(&doc, "node_multiple/node{1}"), all[1..2].to_vec());
}

#[test]
fn query_output_in_document_order() {
    let doc = test_doc();
    // the pre-order traversal of the whole document
    let pre = run(&doc, "**");
    // a deeper selection appears within it, in order
    let picked = run(&doc, "article/**/paragraph");
    let mut pos = 0;
    for m in &picked {
        while pos < pre.len() && &pre[pos] != m {
            pos += 1;
        }
        assert!(pos < pre.len(), "selected node out of document order");
        pos += 1;
    }
}
