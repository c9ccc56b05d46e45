use vstd::prelude::*;

pub mod stmatch;
pub mod tree;
pub mod code;
pub mod lang;

pub use code::Token;
pub use stmatch::{Item, Wildcard};
pub use tree::{Cursor, Node, Tree};

use stmatch::{first_match, match_item, match_range, more_siblings};
use tree::last;

verus! {

/// A structural query: an ordered sequence of literal leaves and wildcards.
#[derive(Clone, Debug)]
pub struct Pattern<T>(pub Vec<Item<T>>);

impl<T> Pattern<T> {
    /// Number of wildcard items, of either kind.
    pub fn holes(&self) -> (r: usize)
        ensures
            r == stmatch::count_holes(self.0@, self.0@.len() as int),
    {
        let mut n: usize = 0;
        let mut i: usize = 0;
        while i < self.0.len()
            invariant
                i <= self.0@.len(),
                n == stmatch::count_holes(self.0@, i as int),
            decreases self.0@.len() - i,
        {
            proof {
                stmatch::lemma_count_holes_bound(self.0@, i as int);
            }
            match &self.0[i] {
                Item::Wildcard(_) => {
                    n = n + 1;
                },
                Item::Concrete(_) => {},
            }
            i = i + 1;
        }
        n
    }
}


/// One occurrence of a pattern: where matching began, and the last node it
/// consumed.
#[derive(Clone, Copy, Debug, PartialEq, Eq)]
pub struct Match<C> {
    pub start: C,
    pub end: C,
}

pub open spec fn is_siblings(item: Item<Token>) -> bool {
    item == Item::<Token>::Wildcard(Wildcard::Siblings)
}

/// The end of `items[lo..hi]` once trailing siblings wildcards are dropped:
/// nothing needs to follow a match.
pub open spec fn trim_back(items: Seq<Item<Token>>, lo: int, hi: int) -> int
    decreases hi - lo,
{
    if lo < hi && is_siblings(items[hi - 1]) {
        trim_back(items, lo, hi - 1)
    } else {
        hi
    }
}

/// The start of `items[k..]` once leading siblings wildcards are dropped:
/// nothing needs to come before a match.
pub open spec fn trim_front(items: Seq<Item<Token>>, k: int) -> int
    decreases items.len() - k,
{
    if 0 <= k < items.len() && is_siblings(items[k]) {
        trim_front(items, k + 1)
    } else {
        k
    }
}

/// What is matched of `items[lo..]` at a position: the items without their
/// trailing siblings wildcards.
pub open spec fn anchored(t: &Tree, items: Seq<Item<Token>>, lo: int, c: Seq<usize>) -> Option<
    Seq<usize>,
> {
    first_match(t, items.subrange(lo, trim_back(items, lo, items.len() as int)), 0, c, true)
}

/// The position where scanning goes on when nothing matches at `c`: past the
/// first leaf under `c`.
pub open spec fn scan_next(t: &Tree, c: Seq<usize>) -> Option<Seq<usize>> {
    t.next_subtree(t.first_leaf(c))
}

/// The first match met when scanning forward from `c`: the start and end
/// paths.
pub open spec fn scan(t: &Tree, items: Seq<Item<Token>>, lo: int, c: Seq<usize>) -> Option<
    (Seq<usize>, Seq<usize>),
>
    decreases t.nodes@.len() - last(c),
{
    match anchored(t, items, lo, c) {
        Some(e) => Some((c, e)),
        None => match scan_next(t, c) {
            Some(c2) => if last(c) < last(c2) < t.nodes@.len() {
                scan(t, items, lo, c2)
            } else {
                None
            },
            None => None,
        },
    }
}

/// Where `find_iter` goes on after a match from `s` to `e`: into the first
/// child of `s` for a pattern that opens with a subtree wildcard (so that a
/// match inside the wildcard's subtree is not missed), else at the subtree
/// after `e`, past the whole match.
pub open spec fn resume_after(t: &Tree, items: Seq<Item<Token>>, s: Seq<usize>, e: Seq<usize>) -> Option<
    Seq<usize>,
> {
    if items.len() > 0 && items[0] == Item::<Token>::Wildcard(Wildcard::Subtree) {
        match t.first_child(s) {
            Some(d) => Some(d),
            None => t.next_subtree(s),
        }
    } else {
        t.next_subtree(e)
    }
}

/// Moves past the first leaf under the cursor, to the next subtree.
fn advance_past_leaf(cursor: &mut Cursor) -> (r: bool)
    requires
        old(cursor).wf(),
    ensures
        final(cursor).wf(),
        final(cursor).tree == old(cursor).tree,
        r == (scan_next(old(cursor).tree, old(cursor).path@) is Some),
        r ==> final(cursor).path@ == scan_next(old(cursor).tree, old(cursor).path@)->0,
        r ==> last(old(cursor).path@) < last(final(cursor).path@) < old(cursor).tree.nodes@.len(),
{
    let ghost t = cursor.tree;
    let ghost c0 = cursor.path@;
    proof {
        t.lemma_first_leaf(c0);
    }
    cursor.move_first_leaf();
    let ghost l = cursor.path@;
    if !cursor.move_next_subtree() {
        return false;
    }
    proof {
        t.lemma_next_subtree(l);
    }
    true
}

impl Pattern<Token> {
    fn first_concrete(&self) -> (r: usize)
        ensures
            r == trim_front(self.0@, 0),
            r <= self.0@.len(),
    {
        let mut k: usize = 0;
        while k < self.0.len()
            invariant
                k <= self.0@.len(),
                trim_front(self.0@, 0) == trim_front(self.0@, k as int),
            decreases self.0@.len() - k,
        {
            match &self.0[k] {
                Item::Wildcard(Wildcard::Siblings) => {
                    k = k + 1;
                },
                _ => {
                    return k;
                },
            }
        }
        k
    }

    /// Matches the items from `lo` on, trailing siblings wildcards left out,
    /// exactly at `start`; hands `start` back when they do not match.
    fn find_impl<'t>(&self, lo: usize, start: Cursor<'t>) -> (r: Result<Match<Cursor<'t>>, Cursor<'t>>)
        requires
            lo <= self.0@.len(),
            start.wf(),
        ensures
            match r {
                Ok(m) => {
                    &&& m.start == start
                    &&& m.end.wf()
                    &&& m.end.tree == start.tree
                    &&& anchored(start.tree, self.0@, lo as int, start.path@) == Some(m.end.path@)
                },
                Err(c) => {
                    &&& c == start
                    &&& anchored(start.tree, self.0@, lo as int, start.path@) is None
                },
            },
    {
        let mut hi = self.0.len();
        assert(trim_back(self.0@, lo as int, self.0@.len() as int) == trim_back(
            self.0@,
            lo as int,
            hi as int,
        ));
        while hi > lo
            invariant
                lo <= hi <= self.0@.len(),
                trim_back(self.0@, lo as int, self.0@.len() as int) == trim_back(
                    self.0@,
                    lo as int,
                    hi as int,
                ),
            ensures
                lo <= hi <= self.0@.len(),
                trim_back(self.0@, lo as int, self.0@.len() as int) == hi,
            decreases hi,
        {
            match &self.0[hi - 1] {
                Item::Wildcard(Wildcard::Siblings) => {
                    hi = hi - 1;
                },
                _ => {
                    break;
                },
            }
        }
        let ck = start.checkpoint();
        match match_range(&self.0, lo, hi, ck) {
            Some(end) => Ok(Match { start, end }),
            None => Err(start),
        }
    }

    /// Matches the pattern exactly at `start`, trailing siblings wildcards
    /// left out: no other position is tried.
    pub fn find_at<'t>(&self, start: Cursor<'t>) -> (r: Option<Match<Cursor<'t>>>)
        requires
            start.wf(),
        ensures
            match r {
                Some(m) => {
                    &&& m.start == start
                    &&& m.end.wf()
                    &&& m.end.tree == start.tree
                    &&& anchored(start.tree, self.0@, 0, start.path@) == Some(m.end.path@)
                },
                None => anchored(start.tree, self.0@, 0, start.path@) is None,
            },
    {
        match self.find_impl(0, start) {
            Ok(m) => Some(m),
            Err(_) => None,
        }
    }

    /// The first match at or after `cursor`: the pattern, leading and
    /// trailing siblings wildcards left out, is tried at `cursor`, then past
    /// each leaf in turn until it matches or the tree is exhausted.
    pub fn find<'t>(&self, start: Cursor<'t>) -> (r: Option<Match<Cursor<'t>>>)
        requires
            start.wf(),
        ensures
            match r {
                Some(m) => {
                    &&& m.start.wf()
                    &&& m.end.wf()
                    &&& m.start.tree == start.tree
                    &&& m.end.tree == start.tree
                    &&& scan(start.tree, self.0@, trim_front(self.0@, 0), start.path@) == Some(
                        (m.start.path@, m.end.path@),
                    )
                },
                None => scan(start.tree, self.0@, trim_front(self.0@, 0), start.path@) is None,
            },
    {
        let ghost t = start.tree;
        let lo = self.first_concrete();
        let ghost target = scan(t, self.0@, lo as int, start.path@);
        let mut cursor = start;
        loop
            invariant
                cursor.wf(),
                cursor.tree == t,
                lo == trim_front(self.0@, 0),
                lo <= self.0@.len(),
                t == start.tree,
                target == scan(t, self.0@, lo as int, start.path@),
                target == scan(t, self.0@, lo as int, cursor.path@),
            decreases t.nodes@.len() - last(cursor.path@),
        {
            match self.find_impl(lo, cursor) {
                Ok(m) => {
                    return Some(m);
                },
                Err(c) => {
                    cursor = c;
                },
            }
            let ghost c0 = cursor.path@;
            if !advance_past_leaf(&mut cursor) {
                return None;
            }
            assert(scan(t, self.0@, lo as int, c0) == scan(t, self.0@, lo as int, cursor.path@));
        }
    }

    /// The matches from `cursor` on, one call of `next` at a time.
    pub fn find_iter<'p, 't>(&'p self, cursor: Cursor<'t>) -> (r: Matches<'p, 't>)
        requires
            cursor.wf(),
        ensures
            r.pattern == self,
            r.cursor == Some(cursor),
    {
        Matches { pattern: self, cursor: Some(cursor) }
    }
}

/// The matches of a pattern, found one by one from left to right.
pub struct Matches<'p, 't> {
    pub pattern: &'p Pattern<Token>,
    pub cursor: Option<Cursor<'t>>,
}

impl<'p, 't> Matches<'p, 't> {
    pub open spec fn wf(&self) -> bool {
        self.cursor matches Some(c) ==> c.wf()
    }

    /// The next match: the first one at or after the current position. The
    /// search then goes on from `resume_after` the match, or stops
    /// when there is nowhere left to go.
    pub fn next(&mut self) -> (r: Option<Match<Cursor<'t>>>)
        requires
            old(self).wf(),
        ensures
            final(self).wf(),
            final(self).pattern == old(self).pattern,
            ({
                let items = old(self).pattern.0@;
                match old(self).cursor {
                    None => r is None && final(self).cursor is None,
                    Some(c) => match r {
                        None => {
                            &&& scan(c.tree, items, trim_front(items, 0), c.path@) is None
                            &&& final(self).cursor is None
                        },
                        Some(m) => {
                            &&& m.start.wf()
                            &&& m.end.wf()
                            &&& m.start.tree == c.tree
                            &&& m.end.tree == c.tree
                            &&& scan(c.tree, items, trim_front(items, 0), c.path@) == Some(
                                (m.start.path@, m.end.path@),
                            )
                            &&& match resume_after(c.tree, items, m.start.path@, m.end.path@) {
                                Some(n) => final(self).cursor matches Some(k) && k.tree == c.tree
                                    && k.path@ == n,
                                None => final(self).cursor is None,
                            }
                        },
                    },
                }
            }),
    {
        let cursor = self.cursor.take();
        match cursor {
            None => None,
            Some(c) => match self.pattern.find(c) {
                None => None,
                Some(m) => {
                    let opens_with_subtree = match self.pattern.0.first() {
                        Some(Item::Wildcard(Wildcard::Subtree)) => true,
                        _ => false,
                    };
                    if opens_with_subtree {
                        let mut start = m.start.checkpoint();
                        if start.move_first_child() || start.move_next_subtree() {
                            self.cursor = Some(start);
                        }
                    } else {
                        let mut end = m.end.checkpoint();
                        if end.move_next_subtree() {
                            self.cursor = Some(end);
                        }
                    }
                    Some(m)
                },
            },
        }
    }
}

proof fn lemma_trim_back_push(items: Seq<Item<Token>>, x: Item<Token>, lo: int, k: int)
    requires
        0 <= lo <= k <= items.len(),
    ensures
        trim_back(items.push(x), lo, k) == trim_back(items, lo, k),
        lo <= trim_back(items, lo, k) <= k,
    decreases k - lo,
{
    if lo < k {
        assert(items.push(x)[k - 1] == items[k - 1]);
        lemma_trim_back_push(items, x, lo, k - 1);
    }
}

proof fn lemma_trim_front_push(items: Seq<Item<Token>>, x: Item<Token>, k: int)
    requires
        0 <= k <= items.len(),
        trim_front(items, k) < items.len(),
    ensures
        trim_front(items.push(x), k) == trim_front(items, k),
    decreases items.len() - k,
{
    if k < items.len() {
        assert(items.push(x)[k] == items[k]);
        if is_siblings(items[k]) {
            lemma_trim_front_push(items, x, k + 1);
        }
    }
}

proof fn lemma_trim_front_all(items: Seq<Item<Token>>, k: int)
    requires
        0 <= k <= items.len(),
        trim_front(items, k) == items.len(),
    ensures
        trim_front(items.push(Item::Wildcard(Wildcard::Siblings)), k) == items.len() + 1,
    decreases items.len() - k,
{
    let items2 = items.push(Item::Wildcard(Wildcard::Siblings));
    if k < items.len() {
        assert(items2[k] == items[k]);
        lemma_trim_front_all(items, k + 1);
    } else {
        assert(is_siblings(items2[k]));
        assert(trim_front(items2, k + 1) == k + 1);
    }
}

proof fn lemma_trim_front_bound(items: Seq<Item<Token>>, k: int)
    requires
        0 <= k <= items.len(),
    ensures
        k <= trim_front(items, k) <= items.len(),
    decreases items.len() - k,
{
    if k < items.len() && is_siblings(items[k]) {
        lemma_trim_front_bound(items, k + 1);
    }
}

/// A pattern that ends in a siblings wildcard matches at a position exactly
/// when the pattern without it does, with the same end: the wildcard may
/// take nothing, even where nothing follows.
pub proof fn lemma_trailing_siblings(t: &Tree, items: Seq<Item<Token>>, lo: int, c: Seq<usize>)
    requires
        0 <= lo <= items.len(),
    ensures
        anchored(t, items.push(Item::Wildcard(Wildcard::Siblings)), lo, c) == anchored(
            t,
            items,
            lo,
            c,
        ),
{
    let sib = Item::<Token>::Wildcard(Wildcard::Siblings);
    let items2 = items.push(sib);
    assert(is_siblings(items2[items.len() as int]));
    lemma_trim_back_push(items, sib, lo, items.len() as int);
    let h = trim_back(items, lo, items.len() as int);
    assert(trim_back(items2, lo, items2.len() as int) == h);
    assert(items2.subrange(lo, h) =~= items.subrange(lo, h));
}

proof fn lemma_scan_same(
    t: &Tree,
    items: Seq<Item<Token>>,
    lo: int,
    items2: Seq<Item<Token>>,
    lo2: int,
    c: Seq<usize>,
)
    requires
        forall|d: Seq<usize>| anchored(t, items2, lo2, d) == #[trigger] anchored(t, items, lo, d),
    ensures
        scan(t, items2, lo2, c) == scan(t, items, lo, c),
    decreases t.nodes@.len() - last(c),
{
    assert(anchored(t, items2, lo2, c) == anchored(t, items, lo, c));
    match scan_next(t, c) {
        Some(c2) => {
            if last(c) < last(c2) < t.nodes@.len() {
                lemma_scan_same(t, items, lo, items2, lo2, c2);
            }
        },
        None => {},
    }
}

/// `find` with a pattern that ends in a siblings wildcard gives what it
/// gives with the pattern without it.
pub proof fn lemma_find_trailing_siblings(t: &Tree, items: Seq<Item<Token>>, c: Seq<usize>)
    ensures
        scan(
            t,
            items.push(Item::Wildcard(Wildcard::Siblings)),
            trim_front(items.push(Item::Wildcard(Wildcard::Siblings)), 0),
            c,
        ) == scan(t, items, trim_front(items, 0), c),
{
    let sib = Item::<Token>::Wildcard(Wildcard::Siblings);
    let items2 = items.push(sib);
    let lo = trim_front(items, 0);
    lemma_trim_front_bound(items, 0);
    if lo < items.len() {
        lemma_trim_front_push(items, sib, 0);
        assert forall|d: Seq<usize>| anchored(t, items2, lo, d) == #[trigger] anchored(t, items, lo, d) by {
            lemma_trailing_siblings(t, items, lo, d);
        }
        lemma_scan_same(t, items, lo, items2, lo, c);
    } else {
        lemma_trim_front_all(items, 0);
        let lo2 = items.len() as int + 1;
        assert forall|d: Seq<usize>| anchored(t, items2, lo2, d) == #[trigger] anchored(t, items, lo, d) by {
            assert(items2.subrange(lo2, trim_back(items2, lo2, items2.len() as int)) =~= seq![]);
            lemma_trim_back_push(items, sib, lo, items.len() as int);
            assert(items.subrange(lo, trim_back(items, lo, items.len() as int)) =~= seq![]);
        }
        lemma_scan_same(t, items, lo, items2, lo2, c);
    }
}

/// `find` tries its start position first: where the pattern matches there
/// (and has no leading siblings wildcard) it returns what `find_at` does;
/// otherwise whatever it finds starts strictly later in preorder.
pub proof fn lemma_find_from_start(t: &Tree, items: Seq<Item<Token>>, c: Seq<usize>)
    requires
        t.wf(),
        t.path_wf(c),
    ensures
        trim_front(items, 0) == 0 && anchored(t, items, 0, c) is Some ==> scan(
            t,
            items,
            trim_front(items, 0),
            c,
        ) == Some((c, anchored(t, items, 0, c)->0)),
        scan(t, items, trim_front(items, 0), c) matches Some((s, e)) ==> t.path_wf(s) && last(c)
            <= last(s),
        anchored(t, items, trim_front(items, 0), c) is None ==> (scan(
            t,
            items,
            trim_front(items, 0),
            c,
        ) matches Some((s, e)) ==> last(c) < last(s)),
{
    lemma_scan_start(t, items, trim_front(items, 0), c);
}

proof fn lemma_scan_start(t: &Tree, items: Seq<Item<Token>>, lo: int, c: Seq<usize>)
    requires
        t.wf(),
        t.path_wf(c),
    ensures
        scan(t, items, lo, c) matches Some((s, e)) ==> t.path_wf(s) && last(c) <= last(s) && (
        anchored(t, items, lo, c) is None ==> last(c) < last(s)) && t.path_wf(e) && last(s) <= last(
            e,
        ),
    decreases t.nodes@.len() - last(c),
{
    stmatch::lemma_forward_first(
        t,
        items.subrange(lo, trim_back(items, lo, items.len() as int)),
        0,
        c,
        true,
    );
    if anchored(t, items, lo, c) is None {
        match scan_next(t, c) {
            Some(c2) => {
                t.lemma_first_leaf(c);
                t.lemma_next_subtree(t.first_leaf(c));
                lemma_scan_start(t, items, lo, c2);
            },
            None => {},
        }
    }
}

/// The matches of `find_iter` come in strictly increasing order of their
/// start in preorder, and, unless the pattern opens with a subtree
/// wildcard, never overlap: the next match starts past the whole subtree
/// where the previous one ended.
pub proof fn lemma_matches_increase(t: &Tree, items: Seq<Item<Token>>, c: Seq<usize>)
    requires
        t.wf(),
        t.path_wf(c),
    ensures
        scan(t, items, trim_front(items, 0), c) matches Some((s1, e1)) ==> match resume_after(
            t,
            items,
            s1,
            e1,
        ) {
            Some(c2) => {
                &&& t.path_wf(c2)
                &&& last(s1) < last(c2)
                &&& scan(t, items, trim_front(items, 0), c2) matches Some((s2, e2)) ==> {
                    &&& last(s1) < last(s2)
                    &&& !(items.len() > 0 && items[0] == Item::<Token>::Wildcard(Wildcard::Subtree))
                        ==> last(e1) + t.size_of(last(e1)) <= last(s2)
                }
            },
            None => true,
        },
{
    let lo = trim_front(items, 0);
    lemma_scan_start(t, items, lo, c);
    if let Some((s1, e1)) = scan(t, items, lo, c) {
        if let Some(c2) = resume_after(t, items, s1, e1) {
            if items.len() > 0 && items[0] == Item::<Token>::Wildcard(Wildcard::Subtree) {
                if t.first_child(s1) is Some {
                    t.lemma_first_child(s1);
                } else {
                    t.lemma_next_subtree(s1);
                }
            } else {
                t.lemma_next_subtree(e1);
            }
            lemma_scan_start(t, items, lo, c2);
        }
    }
}

/// A cursor restored from a checkpoint is the cursor the checkpoint was
/// taken of, whatever moves came in between: same tree, same node, and so
/// the same result for every move.
pub proof fn lemma_restore<'t>(taken: Cursor<'t>, checkpoint: Cursor<'t>, restored: Cursor<'t>)
    requires
        checkpoint.tree == taken.tree,
        checkpoint.path@ == taken.path@,
        restored == checkpoint,
    ensures
        restored.tree == taken.tree,
        restored.path@ == taken.path@,
        restored.tree.first_child(restored.path@) == taken.tree.first_child(taken.path@),
        restored.tree.next_sibling(restored.path@) == taken.tree.next_sibling(taken.path@),
        restored.tree.next_subtree(restored.path@) == taken.tree.next_subtree(taken.path@),
        restored.tree.first_leaf(restored.path@) == taken.tree.first_leaf(taken.path@),
{
}

/// Whether every item of `items` is a literal.
pub open spec fn all_literal(items: Seq<Item<Token>>) -> bool {
    forall|k: int| 0 <= k < items.len() ==> (#[trigger] items[k]) is Concrete
}

/// The literals `items[i..]` read off the leaves from `c` on, one for one:
/// the first leaf under `c` holds the first literal's text, the first leaf
/// of the subtree after it the next one's, and so on. The last of those
/// leaves when they all do.
pub open spec fn literal_run(t: &Tree, items: Seq<Item<Token>>, i: int, c: Seq<usize>) -> Option<
    Seq<usize>,
>
    decreases items.len() - i,
{
    if 0 <= i < items.len() {
        let l = t.first_leaf(c);
        match items[i] {
            Item::Concrete(tok) => if t.text_of(last(l)) != tok.0@ {
                None
            } else if i + 1 == items.len() {
                Some(l)
            } else {
                match t.next_subtree(l) {
                    Some(c2) => literal_run(t, items, i + 1, c2),
                    None => None,
                }
            },
            _ => None,
        }
    } else {
        None
    }
}

proof fn lemma_literal_from(t: &Tree, items: Seq<Item<Token>>, i: int, c: Seq<usize>)
    requires
        all_literal(items),
        0 <= i < items.len(),
    ensures
        first_match(t, items, i, c, true) == literal_run(t, items, i, c),
    decreases items.len() - i,
{
    assert(items[i] is Concrete);
    let l = t.first_leaf(c);
    assert(first_match(t, items, i, c, true) == match_item(t, items, i, c));
    if t.text_of(last(l)) == items[i]->Concrete_0.0@ {
        assert(match_item(t, items, i, c) == first_match(t, items, i + 1, l, false));
        if i + 1 < items.len() {
            match t.next_subtree(l) {
                Some(c2) => {
                    lemma_literal_from(t, items, i + 1, c2);
                    assert(first_match(t, items, i + 1, l, false) == match_item(t, items, i + 1, c2));
                    assert(first_match(t, items, i + 1, c2, true) == match_item(t, items, i + 1, c2));
                },
                None => {},
            }
        }
    } else {
        assert(match_item(t, items, i, c) is None);
    }
}

/// A pattern of literals only matches at a position exactly where the
/// leaves from there on hold its literals, one for one and in order, and
/// the match ends on the last of them.
pub proof fn lemma_literal_pattern(t: &Tree, items: Seq<Item<Token>>, c: Seq<usize>)
    requires
        all_literal(items),
        items.len() > 0,
    ensures
        trim_front(items, 0) == 0,
        anchored(t, items, 0, c) == literal_run(t, items, 0, c),
{
    assert(items[0] is Concrete);
    assert(items[items.len() - 1] is Concrete);
    assert(items.subrange(0, items.len() as int) =~= items);
    lemma_literal_from(t, items, 0, c);
}

/// What the subtree wildcard of `[a, $_, b]` can take, starting at `w`:
/// `w` whole, or else the first child of `w`, and so on down.
proof fn lemma_subtree_ends_on_b(t: &Tree, items: Seq<Item<Token>>, w: Seq<usize>)
    requires
        items.len() == 3,
        items[1] == Item::<Token>::Wildcard(Wildcard::Subtree),
        items[2] is Concrete,
    ensures
        match_item(t, items, 1, w) matches Some(e) ==> t.text_of(last(e)) == items[2]->Concrete_0.0@,
    decreases t.nodes@.len() - last(w),
{
    match t.first_child(w) {
        Some(d) => if last(w) < last(d) < t.nodes@.len() {
            lemma_subtree_ends_on_b(t, items, d);
            assert(first_match(t, items, 1, d, true) == match_item(t, items, 1, d));
        },
        None => {},
    }
    match t.next_subtree(w) {
        Some(v) => {
            let e = t.first_leaf(v);
            assert(first_match(t, items, 2, w, false) == match_item(t, items, 2, v));
            if t.text_of(last(e)) == items[2]->Concrete_0.0@ {
                assert(match_item(t, items, 2, v) == first_match(t, items, 3, e, false));
                assert(first_match(t, items, 3, e, false) == Some(e));
            } else {
                assert(match_item(t, items, 2, v) is None);
            }
        },
        None => {
            assert(first_match(t, items, 2, w, false) is None);
        },
    }
}

/// A subtree wildcard between two literals takes exactly one subtree, of
/// any depth: `[a, $_, b]` fails where `a` is not the first leaf or where
/// no subtree follows it; it matches, ending on `b`, where the subtree
/// after `a` is followed by a subtree whose first leaf is `b`, whether
/// that subtree is a single leaf or deep; and every match ends on a leaf
/// `b`.
pub proof fn lemma_subtree_wildcard(t: &Tree, a: Token, b: Token, c: Seq<usize>)
    ensures
        ({
            let items = seq![
                Item::Concrete(a),
                Item::Wildcard(Wildcard::Subtree),
                Item::Concrete(b),
            ];
            let l = t.first_leaf(c);
            let w = t.next_subtree(l);
            let v = t.next_subtree(w->0);
            &&& (t.text_of(last(l)) != a.0@ || w is None) ==> first_match(
                t,
                items,
                0,
                c,
                true,
            ) is None
            &&& (t.text_of(last(l)) == a.0@ && w is Some && v is Some && t.text_of(
                last(t.first_leaf(v->0)),
            ) == b.0@) ==> first_match(t, items, 0, c, true) == Some(t.first_leaf(v->0))
            &&& first_match(t, items, 0, c, true) matches Some(e) ==> t.text_of(last(e)) == b.0@
        }),
{
    let items = seq![
        Item::Concrete(a),
        Item::Wildcard(Wildcard::Subtree),
        Item::Concrete(b),
    ];
    let l = t.first_leaf(c);
    assert(first_match(t, items, 0, c, true) == match_item(t, items, 0, c));
    if t.text_of(last(l)) == a.0@ {
        assert(match_item(t, items, 0, c) == first_match(t, items, 1, l, false));
        if let Some(w) = t.next_subtree(l) {
            assert(first_match(t, items, 1, l, false) == match_item(t, items, 1, w));
            lemma_subtree_ends_on_b(t, items, w);
            if let Some(v) = t.next_subtree(w) {
                let e = t.first_leaf(v);
                assert(first_match(t, items, 2, w, false) == match_item(t, items, 2, v));
                if t.text_of(last(e)) == b.0@ {
                    assert(match_item(t, items, 2, v) == first_match(t, items, 3, e, false));
                    assert(first_match(t, items, 3, e, false) == Some(e));
                }
            }
        } else {
            assert(first_match(t, items, 1, l, false) is None);
        }
    } else {
        assert(match_item(t, items, 0, c) is None);
    }
}


/// The `j`-th sibling after `c` that is not an extra node (`c` itself for
/// `j == 0`).
pub open spec fn sibling_at(t: &Tree, c: Seq<usize>, j: nat) -> Option<Seq<usize>>
    decreases j,
{
    if j == 0 {
        Some(c)
    } else {
        match sibling_at(t, c, (j - 1) as nat) {
            Some(p) => t.next_sibling(p),
            None => None,
        }
    }
}

/// Whether the first leaf of the `i`-th sibling after `c` holds `b`.
pub open spec fn begins_with(t: &Tree, c: Seq<usize>, i: nat, b: Seq<u8>) -> bool {
    sibling_at(t, c, i) matches Some(s) && t.text_of(last(t.first_leaf(s))) == b
}

proof fn lemma_sibling_at_wf(t: &Tree, c: Seq<usize>, j: nat)
    requires
        t.wf(),
        t.path_wf(c),
    ensures
        sibling_at(t, c, j) matches Some(s) ==> t.path_wf(s),
    decreases j,
{
    if j > 0 {
        lemma_sibling_at_wf(t, c, (j - 1) as nat);
        if let Some(p) = sibling_at(t, c, (j - 1) as nat) {
            if t.next_sibling(p) is Some {
                t.lemma_next_sibling(p);
            }
        }
    }
}

proof fn lemma_more_siblings_least(t: &Tree, items: Seq<Item<Token>>, c: Seq<usize>, i: nat, j: nat)
    requires
        t.wf(),
        t.path_wf(c),
        items.len() == 3,
        items[2] is Concrete,
        i < j,
        sibling_at(t, c, j) is Some,
        begins_with(t, c, j, items[2]->Concrete_0.0@),
        forall|h: nat| i < h < j ==> !#[trigger] begins_with(t, c, h, items[2]->Concrete_0.0@),
    ensures
        more_siblings(t, items, 2, sibling_at(t, c, i)->0) == Some(
            t.first_leaf(sibling_at(t, c, j)->0),
        ),
    decreases j - i,
{
    lemma_sibling_at_exists(t, c, i, j);
    lemma_sibling_at_exists(t, c, i + 1, j);
    let si = sibling_at(t, c, i)->0;
    let sn = sibling_at(t, c, i + 1)->0;
    lemma_sibling_at_wf(t, c, i);
    assert(sibling_at(t, c, i + 1) == t.next_sibling(si));
    t.lemma_next_sibling(si);
    assert(t.next_subtree(si) == Some(sn));
    let e = t.first_leaf(sn);
    assert(first_match(t, items, 2, si, false) == match_item(t, items, 2, sn));
    if i + 1 == j {
        assert(match_item(t, items, 2, sn) == first_match(t, items, 3, e, false));
        assert(first_match(t, items, 3, e, false) == Some(e));
    } else {
        assert(!begins_with(t, c, i + 1, items[2]->Concrete_0.0@));
        assert(match_item(t, items, 2, sn) is None);
        lemma_more_siblings_least(t, items, c, i + 1, j);
        assert(stmatch::next_siblings(t, items, 2, si) == more_siblings(t, items, 2, sn));
    }
}

proof fn lemma_sibling_at_exists(t: &Tree, c: Seq<usize>, i: nat, j: nat)
    requires
        i <= j,
        sibling_at(t, c, j) is Some,
    ensures
        sibling_at(t, c, i) is Some,
    decreases j - i,
{
    if i < j {
        lemma_sibling_at_exists(t, c, i, (j - 1) as nat);
    }
}

/// A siblings wildcard between two literals takes as few subtrees as it
/// can: in `[a, ..., b]`, with `a` the first leaf and `s` the subtree right
/// after it, the match ends on the first leaf of the nearest of `s` and
/// the siblings after it whose first leaf is `b`.
pub proof fn lemma_siblings_least(t: &Tree, a: Token, b: Token, c: Seq<usize>, j: nat)
    requires
        t.wf(),
        t.path_wf(c),
        t.text_of(last(t.first_leaf(c))) == a.0@,
        t.next_subtree(t.first_leaf(c)) is Some,
        begins_with(t, t.next_subtree(t.first_leaf(c))->0, j, b.0@),
        forall|h: nat| h < j ==> !#[trigger] begins_with(t, t.next_subtree(t.first_leaf(c))->0, h, b.0@),
    ensures
        first_match(
            t,
            seq![Item::Concrete(a), Item::Wildcard(Wildcard::Siblings), Item::Concrete(b)],
            0,
            c,
            true,
        ) == Some(t.first_leaf(sibling_at(t, t.next_subtree(t.first_leaf(c))->0, j)->0)),
{
    let items = seq![
        Item::Concrete(a),
        Item::Wildcard(Wildcard::Siblings),
        Item::Concrete(b),
    ];
    let l = t.first_leaf(c);
    t.lemma_first_leaf(c);
    t.lemma_next_subtree(l);
    let c1 = t.next_subtree(l)->0;
    assert(first_match(t, items, 0, c, true) == match_item(t, items, 0, c));
    assert(match_item(t, items, 0, c) == first_match(t, items, 1, l, false));
    assert(first_match(t, items, 1, l, false) == match_item(t, items, 1, c1));
    let e1 = t.first_leaf(c1);
    assert(first_match(t, items, 2, c1, true) == match_item(t, items, 2, c1));
    if j == 0 {
        assert(match_item(t, items, 2, c1) == first_match(t, items, 3, e1, false));
        assert(first_match(t, items, 3, e1, false) == Some(e1));
    } else {
        assert(!begins_with(t, c1, 0, b.0@));
        assert(match_item(t, items, 2, c1) is None);
        lemma_more_siblings_least(t, items, c1, 0, j);
    }
}

/// The node reached from `w` by `k` first-child moves.
pub open spec fn down_at(t: &Tree, w: Seq<usize>, k: nat) -> Option<Seq<usize>>
    decreases k,
{
    if k == 0 {
        Some(w)
    } else {
        match t.first_child(w) {
            Some(d) => down_at(t, d, (k - 1) as nat),
            None => None,
        }
    }
}

/// The subtree wildcard of `[a, $_, b]` standing on `w` takes one subtree:
/// `w`, or a node reached from it by first-child moves; `b` is the first
/// leaf of the subtree after it.
pub open spec fn one_subtree_then(t: &Tree, w: Seq<usize>, e: Seq<usize>, b: Seq<u8>) -> bool {
    exists|k: nat|
        #[trigger] down_at(t, w, k) matches Some(x) && t.next_subtree(x) matches Some(v) && e
            == t.first_leaf(v) && t.text_of(last(e)) == b
}

proof fn lemma_subtree_item(t: &Tree, items: Seq<Item<Token>>, w: Seq<usize>)
    requires
        items.len() == 3,
        items[1] == Item::<Token>::Wildcard(Wildcard::Subtree),
        items[2] is Concrete,
    ensures
        match_item(t, items, 1, w) matches Some(e) ==> one_subtree_then(
            t,
            w,
            e,
            items[2]->Concrete_0.0@,
        ),
    decreases t.nodes@.len() - last(w),
{
    let b = items[2]->Concrete_0.0@;
    if let Some(e) = match_item(t, items, 1, w) {
        let mut found = false;
        if let Some(v) = t.next_subtree(w) {
            let l = t.first_leaf(v);
            assert(first_match(t, items, 2, w, false) == match_item(t, items, 2, v));
            if t.text_of(last(l)) == b {
                assert(match_item(t, items, 2, v) == first_match(t, items, 3, l, false));
                assert(first_match(t, items, 3, l, false) == Some(l));
                assert(down_at(t, w, 0) == Some(w));
                found = true;
            } else {
                assert(match_item(t, items, 2, v) is None);
            }
        } else {
            assert(first_match(t, items, 2, w, false) is None);
        }
        if !found {
            let d = t.first_child(w)->0;
            assert(t.first_child(w) is Some && last(w) < last(d) < t.nodes@.len());
            assert(first_match(t, items, 1, d, true) == match_item(t, items, 1, d));
            lemma_subtree_item(t, items, d);
            let k = choose|k: nat|
                #[trigger] down_at(t, d, k) matches Some(x) && t.next_subtree(x) matches Some(v) && e
                    == t.first_leaf(v) && t.text_of(last(e)) == b;
            assert(down_at(t, w, k + 1) == down_at(t, d, k));
        }
    }
}

/// A match of `[a, $_, b]` takes `a` as the first leaf, then exactly one
/// subtree, of any depth: the subtree after `a` or a node reached from it
/// by first-child moves; and ends on `b`, the first leaf of the subtree
/// after that one.
pub proof fn lemma_subtree_exactly_one(t: &Tree, a: Token, b: Token, c: Seq<usize>)
    ensures
        first_match(
            t,
            seq![Item::Concrete(a), Item::Wildcard(Wildcard::Subtree), Item::Concrete(b)],
            0,
            c,
            true,
        ) matches Some(e) ==> {
            &&& t.text_of(last(t.first_leaf(c))) == a.0@
            &&& t.next_subtree(t.first_leaf(c)) is Some
            &&& one_subtree_then(t, t.next_subtree(t.first_leaf(c))->0, e, b.0@)
        },
{
    let items = seq![
        Item::Concrete(a),
        Item::Wildcard(Wildcard::Subtree),
        Item::Concrete(b),
    ];
    let l = t.first_leaf(c);
    assert(first_match(t, items, 0, c, true) == match_item(t, items, 0, c));
    if t.text_of(last(l)) == a.0@ {
        assert(match_item(t, items, 0, c) == first_match(t, items, 1, l, false));
        if let Some(w) = t.next_subtree(l) {
            assert(first_match(t, items, 1, l, false) == match_item(t, items, 1, w));
            lemma_subtree_item(t, items, w);
        } else {
            assert(first_match(t, items, 1, l, false) is None);
        }
    } else {
        assert(match_item(t, items, 0, c) is None);
    }
}
} // verus!
