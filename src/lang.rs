use tree_sitter::Language as Grammar;
use vstd::prelude::*;

use crate::tree::Tree;

verus! {

#[verifier::external_type_specification]
#[verifier::external_body]
pub struct ExGrammar(Grammar);

/// Relies on tree_sitter::Language::id_for_node_kind: the numeric id that
/// the grammar gives to a named node kind.
#[verifier::external_body]
fn kind_id(language: &Grammar, kind: &str) -> (r: u16) {
    language.id_for_node_kind(kind, true)
}

/// The grammars a query can be written in.
#[derive(Clone, Copy, Debug, PartialEq, Eq, Structural)]
pub enum Select {
    Javascript,
}

/// How a query writes a subtree wildcard: `$_`.
pub open spec fn subtree_spelling(l: Select) -> Seq<u8> {
    seq![0x24u8, 0x5fu8]
}

/// How a query writes a siblings wildcard: `...`.
pub open spec fn siblings_spelling(l: Select) -> Seq<u8> {
    seq![0x2eu8, 0x2eu8, 0x2eu8]
}

/// What a siblings wildcard is rewritten to before the query is parsed: a
/// comment, `/**/`, which the parser keeps as an extra node wherever it
/// stands.
pub open spec fn siblings_token(l: Select) -> Seq<u8> {
    seq![0x2fu8, 0x2au8, 0x2au8, 0x2fu8]
}

/// `s` with each occurrence of `from`, from left to right and not
/// overlapping, replaced by `to`.
pub open spec fn replace_all(s: Seq<u8>, from: Seq<u8>, to: Seq<u8>) -> Seq<u8>
    decreases s.len(),
{
    if s.len() == 0 {
        s
    } else if 0 < from.len() <= s.len() && s.subrange(0, from.len() as int) == from {
        to + replace_all(s.subrange(from.len() as int, s.len() as int), from, to)
    } else {
        seq![s[0]] + replace_all(s.subrange(1, s.len() as int), from, to)
    }
}

impl Select {
    pub fn subtree(&self) -> (r: Vec<u8>)
        ensures
            r@ == subtree_spelling(*self),
    {
        let r = vec![0x24u8, 0x5fu8];
        assert(r@ =~= subtree_spelling(*self));
        r
    }

    pub fn siblings(&self) -> (r: Vec<u8>)
        ensures
            r@ == siblings_spelling(*self),
    {
        let r = vec![0x2eu8, 0x2eu8, 0x2eu8];
        assert(r@ =~= siblings_spelling(*self));
        r
    }

    pub fn siblings_token(&self) -> (r: Vec<u8>)
        ensures
            r@ == siblings_token(*self),
    {
        let r = vec![0x2fu8, 0x2au8, 0x2au8, 0x2fu8];
        assert(r@ =~= siblings_token(*self));
        r
    }

    /// The query text as it is handed to the parser: each siblings wildcard
    /// rewritten to a comment.
    pub fn rewrite(&self, query: &[u8]) -> (r: Vec<u8>)
        ensures
            r@ == replace_all(query@, siblings_spelling(*self), siblings_token(*self)),
    {
        let from = self.siblings();
        let to = self.siblings_token();
        let mut out: Vec<u8> = Vec::new();
        let mut i: usize = 0;
        let n = query.len();
        assert(query@.subrange(0, n as int) =~= query@);
        while i < n
            invariant
                n == query@.len(),
                i <= n,
                from@ == siblings_spelling(*self),
                to@ == siblings_token(*self),
                out@ + replace_all(query@.subrange(i as int, n as int), from@, to@) == replace_all(
                    query@,
                    from@,
                    to@,
                ),
            decreases n - i,
        {
            let ghost rest = query@.subrange(i as int, n as int);
            let mut hit = from.len() <= n - i;
            let mut k: usize = 0;
            while hit && k < from.len()
                invariant
                    from@.len() == 3,
                    k <= from@.len(),
                    hit ==> i + from@.len() <= n,
                    hit ==> forall|j: int| 0 <= j < k ==> query@[i + j] == from@[j],
                    !hit ==> rest.subrange(0, from@.len() as int) != from@ || from@.len() > rest.len(),
                    rest == query@.subrange(i as int, n as int),
                    n == query@.len(),
                    i < n,
                decreases from@.len() - k + if hit {
                    1int
                } else {
                    0int
                },
            {
                if query[i + k] != from[k] {
                    hit = false;
                    assert(rest.subrange(0, from@.len() as int)[k as int] != from@[k as int]);
                } else {
                    k = k + 1;
                }
            }
            if hit {
                assert(rest.subrange(0, from@.len() as int) =~= from@);
                let mut j: usize = 0;
                let ghost out0 = out@;
                while j < to.len()
                    invariant
                        j <= to@.len(),
                        out@ == out0 + to@.subrange(0, j as int),
                    decreases to@.len() - j,
                {
                    out.push(to[j]);
                    j = j + 1;
                    assert(out@ =~= out0 + to@.subrange(0, j as int));
                }
                assert(to@.subrange(0, to@.len() as int) =~= to@);
                assert(rest.subrange(from@.len() as int, rest.len() as int) =~= query@.subrange(
                    i + from@.len(),
                    n as int,
                ));
                assert(out@ + replace_all(query@.subrange(i + from@.len(), n as int), from@, to@)
                    =~= out0 + replace_all(rest, from@, to@));
                i = i + from.len();
            } else {
                let ghost out0 = out@;
                out.push(query[i]);
                assert(rest.subrange(1, rest.len() as int) =~= query@.subrange(i + 1, n as int));
                assert(out@ + replace_all(query@.subrange(i + 1, n as int), from@, to@) =~= out0
                    + replace_all(rest, from@, to@));
                i = i + 1;
            }
        }
        assert(out@ + replace_all(query@.subrange(n as int, n as int), from@, to@) =~= out@);
        out
    }
}

/// A grammar, and the node kinds whose text is parsed again under another
/// grammar.
pub struct Language<'l> {
    pub ts: Grammar,
    pub nested: Vec<(u16, &'l Language<'l>)>,
}

/// The language registered for `kind` in `table`: the first entry for it.
pub open spec fn lookup<'l>(table: Seq<(u16, &'l Language<'l>)>, kind: u16) -> Option<&'l Language<'l>>
    decreases table.len(),
{
    if table.len() == 0 {
        None
    } else {
        match lookup(table.drop_last(), kind) {
            Some(l) => Some(l),
            None => if table.last().0 == kind {
                Some(table.last().1)
            } else {
                None
            },
        }
    }
}

/// `table` finds `language` for `id`, and what `before` found for every
/// other kind.
pub open spec fn registers<'l>(
    table: Seq<(u16, &'l Language<'l>)>,
    before: Seq<(u16, &'l Language<'l>)>,
    id: u16,
    language: &'l Language<'l>,
) -> bool {
    forall|k: u16| #[trigger]
        lookup(table, k) == if k == id {
            Some(language)
        } else {
            lookup(before, k)
        }
}

impl<'l> Language<'l> {
    /// A language with no nested grammar.
    pub fn from_ts(ts: Grammar) -> (r: Language<'l>)
        ensures
            r.ts == ts,
            r.nested@.len() == 0,
    {
        Language { ts, nested: Vec::new() }
    }

    /// Registers `language` for the node kind with numeric id `id`, in place
    /// of any language registered for it before.
    pub fn nest_id(self, id: u16, language: &'l Language<'l>) -> (r: Self)
        ensures
            r.ts == self.ts,
            forall|k: u16| #[trigger]
                lookup(r.nested@, k) == if k == id {
                    Some(language)
                } else {
                    lookup(self.nested@, k)
                },
    {
        let mut this = self;
        let ghost old_table = this.nested@;
        let mut i: usize = 0;
        while i < this.nested.len()
            invariant
                this.nested@ == old_table,
                old_table == self.nested@,
                this.ts == self.ts,
                i <= old_table.len(),
                lookup(old_table.subrange(0, i as int), id) is None,
            decreases old_table.len() - i,
        {
            assert(old_table.subrange(0, i as int + 1).drop_last() =~= old_table.subrange(0, i as int));
            if this.nested[i].0 == id {
                this.nested.set(i, (id, language));
                proof {
                    lemma_lookup_set(old_table, i as int, id, language);
                }
                return this;
            }
            i = i + 1;
        }
        assert(old_table.subrange(0, i as int) =~= old_table);
        this.nested.push((id, language));
        assert(this.nested@.drop_last() =~= old_table);
        this
    }

    /// Registers `language` for the named node kind `node_kind` of this
    /// grammar.
    pub fn nest(self, node_kind: &str, language: &'l Language<'l>) -> (r: Self)
        ensures
            r.ts == self.ts,
            exists|id: u16| #[trigger] registers(r.nested@, self.nested@, id, language),
    {
        let id = kind_id(&self.ts, node_kind);
        let r = self.nest_id(id, language);
        assert(registers(r.nested@, self.nested@, id, language));
        r
    }

    /// The language registered for the node kind with numeric id `kind_id`.
    pub fn get(&self, kind_id: u16) -> (r: Option<&'l Language<'l>>)
        ensures
            r == lookup(self.nested@, kind_id),
    {
        let mut i: usize = 0;
        while i < self.nested.len()
            invariant
                i <= self.nested@.len(),
                lookup(self.nested@.subrange(0, i as int), kind_id) is None,
            decreases self.nested@.len() - i,
        {
            assert(self.nested@.subrange(0, i as int + 1).drop_last() =~= self.nested@.subrange(0, i as int));
            if self.nested[i].0 == kind_id {
                proof {
                    lemma_lookup_found(self.nested@, i as int, kind_id);
                }
                return Some(self.nested[i].1);
            }
            i = i + 1;
        }
        assert(self.nested@.subrange(0, i as int) =~= self.nested@);
        None
    }
}

/// The leaves among the first `n` nodes of `t` whose kind `language`
/// registers a nested language for: their byte ranges, with that language.
pub open spec fn nested_leaves_of<'l>(t: &Tree, language: &Language<'l>, n: int) -> Seq<
    (usize, usize, &'l Language<'l>),
>
    decreases n,
{
    if n <= 0 {
        seq![]
    } else {
        let node = t.nodes@[n - 1];
        let before = nested_leaves_of(t, language, n - 1);
        if t.is_leaf(n - 1) && lookup(language.nested@, node.kind) is Some {
            before.push((node.start, node.end, lookup(language.nested@, node.kind)->0))
        } else {
            before
        }
    }
}

impl<'l> Language<'l> {
    /// The leaves of a tree parsed under this language that are to be parsed
    /// again under a nested one, in order: their byte ranges, and that
    /// language. None when no nested language is registered.
    pub fn nested_leaves(&self, tree: &Tree) -> (r: Vec<(usize, usize, &'l Language<'l>)>)
        ensures
            r@ == nested_leaves_of(tree, self, tree.nodes@.len() as int),
    {
        let mut r: Vec<(usize, usize, &'l Language<'l>)> = Vec::new();
        if self.nested.len() == 0 {
            proof {
                lemma_no_nested_leaves(tree, self, tree.nodes@.len() as int);
            }
            return r;
        }
        let mut n: usize = 0;
        while n < tree.nodes.len()
            invariant
                n <= tree.nodes@.len(),
                r@ == nested_leaves_of(tree, self, n as int),
            decreases tree.nodes@.len() - n,
        {
            let node = tree.nodes[n];
            if tree.leaf_at(n) {
                match self.get(node.kind) {
                    Some(l) => {
                        r.push((node.start, node.end, l));
                    },
                    None => {},
                }
            }
            n = n + 1;
        }
        r
    }
}

proof fn lemma_no_nested_leaves<'l>(t: &Tree, language: &Language<'l>, n: int)
    requires
        language.nested@.len() == 0,
    ensures
        nested_leaves_of(t, language, n) == Seq::<(usize, usize, &'l Language<'l>)>::empty(),
    decreases n,
{
    if n > 0 {
        lemma_no_nested_leaves(t, language, n - 1);
    }
}

proof fn lemma_lookup_prefix<'l>(table: Seq<(u16, &'l Language<'l>)>, n: int, kind: u16)
    requires
        0 <= n <= table.len(),
        lookup(table.subrange(0, n), kind) is Some,
    ensures
        lookup(table, kind) == lookup(table.subrange(0, n), kind),
    decreases table.len() - n,
{
    if n < table.len() {
        assert(table.subrange(0, n + 1).drop_last() =~= table.subrange(0, n));
        lemma_lookup_prefix(table, n + 1, kind);
    } else {
        assert(table.subrange(0, n) =~= table);
    }
}

proof fn lemma_lookup_found<'l>(table: Seq<(u16, &'l Language<'l>)>, i: int, kind: u16)
    requires
        0 <= i < table.len(),
        lookup(table.subrange(0, i), kind) is None,
        table[i].0 == kind,
    ensures
        lookup(table, kind) == Some(table[i].1),
{
    assert(table.subrange(0, i + 1).drop_last() =~= table.subrange(0, i));
    lemma_lookup_prefix(table, i + 1, kind);
}

/// Lookups in a table whose entry `i` is the first one for `id`, once that
/// entry is replaced.
proof fn lemma_lookup_set<'l>(
    table: Seq<(u16, &'l Language<'l>)>,
    i: int,
    id: u16,
    language: &'l Language<'l>,
)
    requires
        0 <= i < table.len(),
        lookup(table.subrange(0, i), id) is None,
        table[i].0 == id,
    ensures
        forall|k: u16| #[trigger]
            lookup(table.update(i, (id, language)), k) == if k == id {
                Some(language)
            } else {
                lookup(table, k)
            },
    decreases table.len() - i,
{
    let t2 = table.update(i, (id, language));
    assert forall|k: u16| #[trigger]
        lookup(t2, k) == if k == id {
            Some(language)
        } else {
            lookup(table, k)
        } by {
        assert(table.subrange(0, table.len() as int) =~= table);
        assert(t2.subrange(0, t2.len() as int) =~= t2);
        if k != id {
            lemma_lookup_update_same(table, i, (id, language), k, table.len() as int);
        } else {
            assert(t2.subrange(0, i) =~= table.subrange(0, i));
            lemma_lookup_found(t2, i, k);
        }
    }
}

/// Replacing entry `i` by one with the same kind changes only what is found
/// for that kind.
proof fn lemma_lookup_update_same<'l>(
    table: Seq<(u16, &'l Language<'l>)>,
    i: int,
    e: (u16, &'l Language<'l>),
    k: u16,
    n: int,
)
    requires
        0 <= i < table.len(),
        table[i].0 == e.0,
        0 <= n <= table.len(),
        k != e.0,
    ensures
        lookup(table.update(i, e).subrange(0, n), k) == lookup(table.subrange(0, n), k),
    decreases n,
{
    if n > 0 {
        assert(table.update(i, e).subrange(0, n).drop_last() =~= table.update(i, e).subrange(0, n - 1));
        assert(table.subrange(0, n).drop_last() =~= table.subrange(0, n - 1));
        lemma_lookup_update_same(table, i, e, k, n - 1);
    }
}

} // verus!
