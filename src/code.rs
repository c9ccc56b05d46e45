use vstd::prelude::*;
use vstd::string::StringSliceAdditionalSpecFns;

use crate::lang::{siblings_token, subtree_spelling, Select};
use crate::stmatch::{Item, Wildcard};
use crate::tree::Tree;
use crate::Pattern;

verus! {

/// A literal token of a query: the exact bytes that a leaf must hold.
#[derive(Clone, Debug)]
pub struct Token(pub Vec<u8>);

impl Token {
    pub fn new(s: &str) -> (r: Token)
        ensures
            r.0@ == s.spec_bytes(),
    {
        Token(vstd::slice::slice_to_vec(s.as_bytes()))
    }
}

/// An item with its literal seen as bytes.
pub open spec fn item_view(i: Item<Token>) -> Item<Seq<u8>> {
    match i {
        Item::Wildcard(w) => Item::Wildcard(w),
        Item::Concrete(t) => Item::Concrete(t.0@),
    }
}

/// What a leaf of a parsed query stands for.
pub open spec fn classify(text: Seq<u8>, l: Select) -> Item<Seq<u8>> {
    if text == subtree_spelling(l) {
        Item::Wildcard(Wildcard::Subtree)
    } else if text == siblings_token(l) {
        Item::Wildcard(Wildcard::Siblings)
    } else {
        Item::Concrete(text)
    }
}

/// Whether node `n` is a leaf of the query that holds some text.
pub open spec fn is_query_leaf(t: &Tree, n: int) -> bool {
    t.is_leaf(n) && t.nodes@[n].start < t.nodes@[n].end
}

/// The items of a parsed query, from its first `n` nodes: one for each leaf
/// that holds some text, in order.
pub open spec fn query_items(t: &Tree, l: Select, n: int) -> Seq<Item<Seq<u8>>>
    decreases n,
{
    if n <= 0 {
        seq![]
    } else if is_query_leaf(t, n - 1) {
        query_items(t, l, n - 1).push(classify(t.text_of(n - 1), l))
    } else {
        query_items(t, l, n - 1)
    }
}

/// The bytes of `text` in `start .. end`.
fn copy_range(text: &Vec<u8>, start: usize, end: usize) -> (r: Vec<u8>)
    requires
        start <= end <= text@.len(),
    ensures
        r@ == text@.subrange(start as int, end as int),
{
    let mut r: Vec<u8> = Vec::new();
    let mut i: usize = start;
    while i < end
        invariant
            start <= i <= end <= text@.len(),
            r@ == text@.subrange(start as int, i as int),
        decreases end - i,
    {
        r.push(text[i]);
        i = i + 1;
        assert(r@ =~= text@.subrange(start as int, i as int));
    }
    r
}

impl Token {
    /// The pattern of a query that was parsed, after `Select::rewrite`,
    /// into `query`: one item for each leaf that holds some text, in
    /// document order, the wildcard spellings of `language` read as
    /// wildcards.
    pub fn pattern(query: &Tree, language: Select) -> (r: Pattern<Token>)
        requires
            query.wf(),
        ensures
            r.0@.map_values(|i: Item<Token>| item_view(i)) == query_items(
                query,
                language,
                query.nodes@.len() as int,
            ),
    {
        let subtree = language.subtree();
        let siblings = language.siblings_token();
        let mut items: Vec<Item<Token>> = Vec::new();
        let mut n: usize = 0;
        while n < query.nodes.len()
            invariant
                query.wf(),
                n <= query.nodes@.len(),
                subtree@ == subtree_spelling(language),
                siblings@ == siblings_token(language),
                items@.map_values(|i: Item<Token>| item_view(i)) == query_items(query, language, n as int),
            decreases query.nodes@.len() - n,
        {
            let node = query.nodes[n];
            let ghost before = items@;
            if query.leaf_at(n) && node.start < node.end {
                let item = if query.text_eq(n, &subtree) {
                    Item::Wildcard(Wildcard::Subtree)
                } else if query.text_eq(n, &siblings) {
                    Item::Wildcard(Wildcard::Siblings)
                } else {
                    Item::Concrete(Token(copy_range(&query.text, node.start, node.end)))
                };
                assert(item_view(item) == classify(query.text_of(n as int), language));
                items.push(item);
                assert(items@.map_values(|i: Item<Token>| item_view(i)) =~= before.map_values(
                    |i: Item<Token>| item_view(i),
                ).push(item_view(item)));
            }
            n = n + 1;
        }
        Pattern(items)
    }
}

} // verus!
