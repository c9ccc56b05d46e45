use stsearch::code::Token;
use stsearch::stmatch::match_at;
use stsearch::tree::{nested_find, Nested};
use stsearch::{Cursor, Item, Match, Node, Pattern, Tree, Wildcard};

fn node(start: usize, end: usize, parent: usize, size: usize) -> Node {
    Node { kind: 0, start, end, extra: false, parent, size }
}

/// A root over the whole text with one leaf child per span.
fn flat(text: &str, spans: &[(usize, usize)]) -> Tree {
    let mut nodes = vec![node(0, text.len(), 0, spans.len() + 1)];
    for &(s, e) in spans {
        nodes.push(node(s, e, 0, 1));
    }
    Tree::new(text.as_bytes().to_vec(), nodes).unwrap()
}

/// One leaf per byte of the text.
fn bytes(text: &str) -> Tree {
    let spans: Vec<(usize, usize)> = (0..text.len()).map(|i| (i, i + 1)).collect();
    flat(text, &spans)
}

fn lit(s: &str) -> Item<Token> {
    Item::Concrete(Token::new(s))
}

fn sub() -> Item<Token> {
    Item::Wildcard(Wildcard::Subtree)
}

fn sibs() -> Item<Token> {
    Item::Wildcard(Wildcard::Siblings)
}

fn all<'t>(pattern: &Pattern<Token>, tree: &'t Tree) -> Vec<Match<Cursor<'t>>> {
    let mut out = vec![];
    let mut it = pattern.find_iter(tree.walk());
    while let Some(m) = it.next() {
        out.push(m);
    }
    out
}

#[test]
fn call_with_siblings_matches_whole_call() {
    let tree = flat("f(a,b)", &[(0, 1), (1, 2), (2, 3), (3, 4), (4, 5), (5, 6)]);
    let pattern = Pattern(vec![lit("f"), lit("("), sibs(), lit(")")]);
    let m = pattern.find(tree.walk()).unwrap();
    assert_eq!(m.start.node(), 0);
    assert_eq!(m.end.node(), 6);
    assert_eq!(tree.nodes[m.end.node()].start, 5);
}

#[test]
fn siblings_wildcard_takes_fewest() {
    let tree = bytes("AXBYB");
    let pattern = Pattern(vec![lit("A"), sibs(), lit("B")]);
    let m = pattern.find(tree.walk()).unwrap();
    assert_eq!(m.end.node(), 3);
}

#[test]
fn siblings_wildcard_can_take_nothing_at_the_end() {
    let tree = bytes("A");
    let pattern = Pattern(vec![lit("A"), sibs()]);
    let m = pattern.find(tree.walk()).unwrap();
    assert_eq!(m.end.node(), 1);
    let bare = Pattern(vec![lit("A")]);
    assert_eq!(bare.find(tree.walk()).unwrap().end.path, m.end.path);
}

#[test]
fn siblings_wildcard_in_the_middle_may_be_empty() {
    let tree = bytes("AB");
    let pattern = Pattern(vec![lit("A"), sibs(), lit("B")]);
    assert_eq!(pattern.find(tree.walk()).unwrap().end.node(), 2);
}

#[test]
fn literal_pattern_finds_each_run() {
    let tree = bytes("abab");
    let pattern = Pattern(vec![lit("a"), lit("b")]);
    let found = all(&pattern, &tree);
    assert_eq!(found.len(), 2);
    assert_eq!(found[0].start.node(), 0);
    assert_eq!(found[0].end.node(), 2);
    assert_eq!(found[1].start.node(), 3);
    assert_eq!(found[1].end.node(), 4);
}

#[test]
fn literal_pattern_misses_other_runs() {
    let tree = bytes("abba");
    let pattern = Pattern(vec![lit("a"), lit("a")]);
    assert!(pattern.find(tree.walk()).is_none());
}

/// root: A, P(X, Y), B
fn deep() -> Tree {
    let nodes = vec![
        node(0, 4, 0, 6),
        node(0, 1, 0, 1),
        node(1, 3, 0, 3),
        node(1, 2, 2, 1),
        node(2, 3, 2, 1),
        node(3, 4, 0, 1),
    ];
    Tree::new(b"AXYB".to_vec(), nodes).unwrap()
}

#[test]
fn subtree_wildcard_takes_a_deep_subtree() {
    let tree = deep();
    let pattern = Pattern(vec![lit("A"), sub(), lit("B")]);
    let m = pattern.find(tree.walk()).unwrap();
    assert_eq!(m.end.node(), 5);
}

#[test]
fn subtree_wildcard_takes_a_single_leaf() {
    let tree = bytes("AXB");
    let pattern = Pattern(vec![lit("A"), sub(), lit("B")]);
    assert_eq!(pattern.find(tree.walk()).unwrap().end.node(), 3);
}

#[test]
fn subtree_wildcard_needs_a_subtree() {
    let tree = bytes("AB");
    let pattern = Pattern(vec![lit("A"), sub(), lit("B")]);
    assert!(pattern.find(tree.walk()).is_none());
}

#[test]
fn subtree_wildcard_takes_one_subtree_only() {
    let tree = bytes("AXYB");
    let pattern = Pattern(vec![lit("A"), sub(), lit("B")]);
    assert!(pattern.find(tree.walk()).is_none());
}

#[test]
fn subtree_wildcard_descends_when_needed() {
    let tree = deep();
    let pattern = Pattern(vec![lit("A"), sub(), lit("Y")]);
    let m = pattern.find(tree.walk()).unwrap();
    assert_eq!(m.end.node(), 4);
}

#[test]
fn find_at_does_not_scan() {
    let tree = bytes("xab");
    let pattern = Pattern(vec![lit("a"), lit("b")]);
    assert!(pattern.find_at(tree.walk()).is_none());
    let m = pattern.find(tree.walk()).unwrap();
    assert_eq!(m.start.node(), 2);
    assert_eq!(m.end.node(), 3);
}

#[test]
fn find_at_matches_at_start() {
    let tree = bytes("ab");
    let pattern = Pattern(vec![lit("a"), lit("b")]);
    let m = pattern.find_at(tree.walk()).unwrap();
    assert_eq!(m.start.node(), 0);
    assert_eq!(m.end.node(), 2);
}

#[test]
fn find_iter_starts_increase() {
    let tree = bytes("xaxbxc");
    let pattern = Pattern(vec![lit("x"), sub()]);
    let found = all(&pattern, &tree);
    assert_eq!(found.len(), 3);
    for w in found.windows(2) {
        assert!(w[0].start.node() < w[1].start.node());
    }
}

#[test]
fn find_iter_matches_do_not_overlap() {
    let tree = bytes("xxx");
    let pattern = Pattern(vec![lit("x"), lit("x")]);
    let found = all(&pattern, &tree);
    assert_eq!(found.len(), 1);
    assert_eq!(found[0].end.node(), 2);
    let tree = bytes("xxxx");
    let found = all(&pattern, &tree);
    assert_eq!(found.len(), 2);
    assert_eq!(found[0].end.node(), 2);
    assert_eq!(found[1].start.node(), 3);
    assert_eq!(found[1].end.node(), 4);
}

#[test]
fn leading_siblings_wildcard_reports_each_leaf_once() {
    let tree = bytes("ab");
    let pattern = Pattern(vec![sibs(), lit("a")]);
    let found = all(&pattern, &tree);
    assert_eq!(found.len(), 1);
    assert_eq!(found[0].end.node(), 1);
}

#[test]
fn find_iter_on_wildcard_first_pattern_goes_inside() {
    let tree = deep();
    let pattern = Pattern(vec![sub(), lit("B")]);
    let found = all(&pattern, &tree);
    assert_eq!(found[0].end.node(), 5);
    assert!(found.iter().all(|m| m.end.node() == 5));
    assert!(found.len() >= 2);
}

#[test]
fn extras_are_skipped() {
    let mut nodes = vec![node(0, 7, 0, 4), node(0, 1, 0, 1), node(1, 6, 0, 1), node(6, 7, 0, 1)];
    nodes[2].extra = true;
    let tree = Tree::new(b"a/*c*/b".to_vec(), nodes).unwrap();
    let pattern = Pattern(vec![lit("a"), lit("b")]);
    let m = pattern.find(tree.walk()).unwrap();
    assert_eq!(m.end.node(), 3);
}

/// "a[bc]d": the leaf "[bc]" holds a tree of its own, with leaves b and c.
fn nested() -> Tree {
    let text = b"a[bc]d".to_vec();
    let outer = Tree::new(
        text.clone(),
        vec![node(0, 6, 0, 4), node(0, 1, 0, 1), node(1, 5, 0, 1), node(5, 6, 0, 1)],
    )
    .unwrap();
    let inner = Tree::new(text, vec![node(2, 4, 0, 3), node(2, 3, 0, 1), node(3, 4, 0, 1)]).unwrap();
    Tree::nest(outer, vec![Nested { start: 1, end: 5, tree: inner }]).unwrap()
}

#[test]
fn nested_tree_is_searched() {
    let tree = nested();
    assert_eq!(tree.nodes.len(), 7);
    let pattern = Pattern(vec![lit("b"), lit("c")]);
    let m = pattern.find(tree.walk()).unwrap();
    let end = tree.nodes[m.end.node()];
    assert!(1 <= end.start && end.end <= 5);
    let start = tree.nodes[m.start.node()];
    assert!(1 <= start.start && start.end <= 5);
}

#[test]
fn nested_tree_is_crossed_both_ways() {
    let tree = nested();
    let into = Pattern(vec![lit("a"), lit("b")]);
    assert!(into.find(tree.walk()).is_some());
    let out = Pattern(vec![lit("c"), lit("d")]);
    let m = out.find(tree.walk()).unwrap();
    assert_eq!(tree.nodes[m.end.node()].start, 5);
}

#[test]
fn nest_rejects_overlapping_ranges() {
    let text = b"abcd".to_vec();
    let outer = Tree::new(text.clone(), vec![node(0, 4, 0, 2), node(0, 4, 0, 1)]).unwrap();
    let one = Tree::new(text.clone(), vec![node(0, 2, 0, 1)]).unwrap();
    let two = Tree::new(text, vec![node(1, 3, 0, 1)]).unwrap();
    let r = Tree::nest(
        outer,
        vec![Nested { start: 0, end: 2, tree: one }, Nested { start: 1, end: 3, tree: two }],
    );
    assert!(r.is_none());
}

#[test]
fn nested_find_by_range() {
    let spans = vec![(1, 3), (5, 8)];
    assert_eq!(nested_find(&spans, 5, 8), Some(1));
    assert_eq!(nested_find(&spans, 1, 3), Some(0));
    assert_eq!(nested_find(&spans, 0, 10), Some(0));
    assert_eq!(nested_find(&spans, 3, 5), None);
    assert_eq!(nested_find(&spans, 6, 7), None);
    assert_eq!(nested_find(&vec![], 0, 1), None);
    assert_eq!(nested_find(&vec![(5, 5)], 0, 5), None);
    assert_eq!(nested_find(&vec![(5, 5)], 4, 6), Some(0));
}

#[test]
fn checkpoint_restores_position() {
    let tree = deep();
    let mut c = tree.walk();
    assert!(c.move_first_child());
    let saved = c.checkpoint();
    assert!(c.move_next_sibling());
    assert!(c.move_first_child());
    c.restore(saved);
    assert_eq!(c.node(), 1);
    assert!(c.move_next_sibling());
    assert_eq!(c.node(), 2);
}

#[test]
fn cursor_moves() {
    let tree = deep();
    let mut c = tree.walk();
    assert!(!c.move_next_sibling());
    assert!(!c.move_next_subtree());
    assert_eq!(c.node(), 0);
    assert_eq!(c.move_first_leaf(), 1);
    assert!(c.move_next_subtree());
    assert_eq!(c.node(), 2);
    assert!(c.move_first_child());
    assert_eq!(c.node(), 3);
    assert!(c.move_next_sibling());
    assert!(!c.move_next_sibling());
    assert!(!c.move_first_child());
    assert!(c.move_next_subtree());
    assert_eq!(c.node(), 5);
    assert!(!c.move_next_subtree());
    assert_eq!(c.node(), 0);
    assert_eq!(c.path, vec![0]);
}

#[test]
fn match_at_reports_last_node() {
    let tree = bytes("ab");
    let items = vec![lit("a"), lit("b")];
    let end = match_at(&items, tree.walk()).unwrap();
    assert_eq!(end.node(), 2);
    let items = vec![lit("a"), sibs()];
    assert!(match_at(&items, tree.walk()).is_some());
    let tree = bytes("a");
    let items = vec![lit("a"), sibs()];
    assert!(match_at(&items, tree.walk()).is_none());
}

#[test]
fn holes_count_wildcards() {
    let pattern = Pattern(vec![lit("a"), sub(), sibs(), lit("b"), sibs()]);
    assert_eq!(pattern.holes(), 3);
    assert_eq!(Pattern::<Token>(vec![]).holes(), 0);
}

#[test]
fn new_rejects_bad_layouts() {
    assert!(Tree::new(b"ab".to_vec(), vec![]).is_none());
    assert!(Tree::new(b"ab".to_vec(), vec![node(0, 2, 0, 0)]).is_none());
    assert!(Tree::new(b"ab".to_vec(), vec![node(0, 3, 0, 1)]).is_none());
    assert!(Tree::new(b"ab".to_vec(), vec![node(0, 2, 0, 2), node(0, 1, 1, 1)]).is_none());
    assert!(Tree::new(b"ab".to_vec(), vec![node(0, 2, 0, 2), node(0, 1, 0, 1)]).is_some());
}

#[test]
fn dim_counts_nodes_and_depth() {
    assert_eq!(deep().dim(), (6, 3));
    assert_eq!(bytes("ab").dim(), (3, 2));
    assert_eq!(nested().dim(), (7, 4));
}

#[test]
fn leaves_are_nodes_without_children() {
    let tree = Tree::new(b"ab".to_vec(), vec![node(0, 2, 0, 3), node(0, 1, 0, 2), node(1, 2, 0, 1)]).unwrap();
    assert_eq!(tree.leaves(), vec![1, 2]);
    assert_eq!(deep().leaves(), vec![1, 3, 4, 5]);
}

#[test]
fn nest_places_nested_tree_under_its_leaf() {
    let tree = nested();
    let parents: Vec<usize> = tree.nodes.iter().map(|n| n.parent).collect();
    let sizes: Vec<usize> = tree.nodes.iter().map(|n| n.size).collect();
    assert_eq!(parents, vec![0, 0, 0, 2, 3, 3, 0]);
    assert_eq!(sizes, vec![7, 1, 4, 3, 1, 1, 1]);
    let mut c = tree.walk();
    assert!(c.move_first_child());
    assert!(c.move_next_sibling());
    assert_eq!(c.node(), 2);
    assert!(c.move_first_child());
    assert_eq!(c.node(), 3);
    assert!(c.move_next_subtree());
    assert_eq!(c.node(), 6);
}

#[test]
fn nest_rejects_malformed_nested_tree() {
    let text = b"ab".to_vec();
    let outer = Tree::new(text.clone(), vec![node(0, 2, 0, 2), node(0, 2, 0, 1)]).unwrap();
    let bad = Tree { text: text.clone(), nodes: vec![node(0, 1, 0, 0)] };
    assert!(Tree::nest(outer, vec![Nested { start: 0, end: 2, tree: bad }]).is_none());
}
