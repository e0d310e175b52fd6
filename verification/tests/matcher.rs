use feed_tools::statement::{Statement, StatementKind};

fn node(kind: StatementKind, text: &str, children: Vec<Statement>) -> Statement {
    Statement::new(kind, text.to_string(), children)
}

fn leaf(kind: StatementKind, text: &str) -> Statement {
    node(kind, text, vec![])
}

// { a = 1; if (a) { b; } else { c; } }
fn tree() -> Statement {
    let assign = node(
        StatementKind::Assign,
        "a = 1;",
        vec![leaf(StatementKind::Variable, "a"), leaf(StatementKind::Primitive, "1")],
    );
    let branch = node(
        StatementKind::If,
        "if (a) { b; } else { c; }",
        vec![
            leaf(StatementKind::Variable, "a"),
            node(StatementKind::Block, "{ b; }", vec![leaf(StatementKind::Variable, "b")]),
            node(StatementKind::Block, "{ c; }", vec![leaf(StatementKind::Variable, "c")]),
        ],
    );
    node(StatementKind::Block, "{ a = 1; if (a) { b; } else { c; } }", vec![assign, branch])
}

fn texts(found: &[&Statement]) -> Vec<String> {
    found.iter().map(|s| s.to_string()).collect()
}

#[test]
fn find_everything_walks_in_pre_order() {
    let root = tree();
    let found = root.find(&|_| true);
    assert_eq!(
        texts(&found),
        vec![
            "{ a = 1; if (a) { b; } else { c; } }",
            "a = 1;",
            "a",
            "1",
            "if (a) { b; } else { c; }",
            "a",
            "{ b; }",
            "b",
            "{ c; }",
            "c",
        ]
    );
}

#[test]
fn find_nothing_is_empty() {
    let root = tree();
    assert!(root.find(&|_| false).is_empty());
}

#[test]
fn find_includes_the_root_where_it_matches() {
    let root = tree();
    let found = root.find(&|s| matches!(s.kind, StatementKind::Block));
    assert_eq!(found.len(), 3);
    assert!(std::ptr::eq(found[0], &root));
    assert!(std::ptr::eq(found[1], &root.children[1].children[1]));
    assert!(std::ptr::eq(found[2], &root.children[1].children[2]));
}

#[test]
fn find_takes_any_predicate() {
    let root = tree();
    let found = root.find(&|s| s.text == "a");
    assert_eq!(found.len(), 2);
    assert!(std::ptr::eq(found[0], &root.children[0].children[0]));
    assert!(std::ptr::eq(found[1], &root.children[1].children[0]));
    let wide = root.find(&|s| s.children.len() >= 2);
    assert_eq!(
        texts(&wide),
        vec!["{ a = 1; if (a) { b; } else { c; } }", "a = 1;", "if (a) { b; } else { c; }"]
    );
}

#[test]
fn find_asks_once_about_each_node() {
    let root = tree();
    let asked = std::cell::Cell::new(0);
    let found = root.find(&|s| {
        asked.set(asked.get() + 1);
        matches!(s.kind, StatementKind::Variable)
    });
    assert_eq!(asked.get(), 10);
    assert_eq!(texts(&found), vec!["a", "a", "b", "c"]);
}

#[test]
fn find_on_a_leaf() {
    let only = leaf(StatementKind::Call, "f()");
    let found = only.find(&|s| matches!(s.kind, StatementKind::Call));
    assert_eq!(found.len(), 1);
    assert!(std::ptr::eq(found[0], &only));
    assert!(only.find(&|s| matches!(s.kind, StatementKind::Variable)).is_empty());
}

#[test]
fn find_twice_gives_the_same() {
    let root = tree();
    let wanted = |s: &Statement| matches!(s.kind, StatementKind::Variable);
    let first = root.find(&wanted);
    let second = root.find(&wanted);
    assert_eq!(first, second);
    assert_eq!(first.len(), 4);
    for (one, other) in first.iter().zip(second.iter()) {
        assert!(std::ptr::eq(*one, *other));
    }
}

#[test]
fn new_keeps_its_arguments() {
    let stmt = Statement::new(
        StatementKind::Call,
        "f(1)".to_string(),
        vec![leaf(StatementKind::Primitive, "1")],
    );
    assert_eq!(stmt.kind, StatementKind::Call);
    assert_eq!(stmt.text, "f(1)");
    assert_eq!(stmt.children, vec![leaf(StatementKind::Primitive, "1")]);
}

#[test]
fn to_string_gives_the_text() {
    let stmt = leaf(StatementKind::Call, "display(\"hi\")");
    assert_eq!(stmt.to_string(), "display(\"hi\")");
    assert_eq!(leaf(StatementKind::NoOp, "").to_string(), "");
}
