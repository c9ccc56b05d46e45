use stsearch::code::Token;
use stsearch::lang::{Language, Select};
use stsearch::{Item, Node, Tree, Wildcard};

fn leaf(start: usize, end: usize) -> Node {
    Node { kind: 0, start, end, extra: false, parent: 0, size: 1 }
}

fn describe(items: &[Item<Token>]) -> Vec<String> {
    items
        .iter()
        .map(|i| match i {
            Item::Wildcard(Wildcard::Subtree) => "$".to_string(),
            Item::Wildcard(Wildcard::Siblings) => "*".to_string(),
            Item::Concrete(t) => String::from_utf8(t.0.clone()).unwrap(),
        })
        .collect()
}

#[test]
fn rewrite_replaces_siblings_spelling() {
    let js = Select::Javascript;
    assert_eq!(js.rewrite(b"f(...)"), b"f(/**/)".to_vec());
    assert_eq!(js.rewrite(b"a(..., ....)"), b"a(/**/, /**/.)".to_vec());
    assert_eq!(js.rewrite(b"x.y"), b"x.y".to_vec());
    assert_eq!(js.rewrite(b""), Vec::<u8>::new());
}

#[test]
fn pattern_reads_leaves_and_wildcards() {
    let text = b"f($_, /**/)".to_vec();
    let mut nodes = vec![Node { kind: 0, start: 0, end: 11, extra: false, parent: 0, size: 8 }];
    nodes.push(leaf(0, 1));
    nodes.push(leaf(1, 2));
    nodes.push(leaf(2, 4));
    nodes.push(leaf(4, 5));
    nodes.push(leaf(6, 10));
    nodes.push(leaf(10, 10));
    nodes.push(leaf(10, 11));
    nodes[5].extra = true;
    let tree = Tree::new(text, nodes).unwrap();
    let pattern = Token::pattern(&tree, Select::Javascript);
    assert_eq!(describe(&pattern.0), vec!["f", "(", "$", ",", "*", ")"]);
    assert_eq!(pattern.holes(), 2);
}

#[test]
fn token_holds_bytes() {
    assert_eq!(Token::new("abc").0, b"abc".to_vec());
}

#[test]
fn language_registers_nested_kind() {
    let js = tree_sitter_javascript::language();
    let inner = Language::from_ts(js);
    let outer = Language::from_ts(js).nest("template_string", &inner);
    let id = js.id_for_node_kind("template_string", true);
    assert!(outer.get(id).is_some());
    assert!(outer.get(id.wrapping_add(1)).is_none());
}

#[test]
fn language_nest_id_replaces() {
    let js = tree_sitter_javascript::language();
    let a = Language::from_ts(js);
    let b = Language::from_ts(js);
    let l = Language::from_ts(js).nest_id(7, &a).nest_id(7, &b).nest_id(9, &a);
    assert!(std::ptr::eq(l.get(7).unwrap(), &b));
    assert!(std::ptr::eq(l.get(9).unwrap(), &a));
    assert!(l.get(8).is_none());
    assert_eq!(l.nested.len(), 2);
    assert!(l.ts == js);
    assert!(Language::from_ts(js).nest("template_string", &a).ts == js);
}

#[test]
fn nested_leaves_lists_registered_leaves() {
    let js = tree_sitter_javascript::language();
    let inner = Language::from_ts(js);
    let outer = Language::from_ts(js).nest_id(5, &inner);
    let mut nodes = vec![Node { kind: 1, start: 0, end: 3, extra: false, parent: 0, size: 4 }];
    nodes.push(Node { kind: 5, ..leaf(0, 1) });
    nodes.push(Node { kind: 6, ..leaf(1, 2) });
    nodes.push(Node { kind: 5, ..leaf(2, 3) });
    let tree = Tree::new(b"abc".to_vec(), nodes).unwrap();
    let found: Vec<(usize, usize)> = outer.nested_leaves(&tree).iter().map(|(s, e, _)| (*s, *e)).collect();
    assert_eq!(found, vec![(0, 1), (2, 3)]);
    assert!(Language::from_ts(js).nested_leaves(&tree).is_empty());
    assert_eq!(tree.leaves(), vec![1, 2, 3]);
}
