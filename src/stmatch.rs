use vstd::prelude::*;

use crate::code::Token;
use crate::tree::{last, Cursor, Tree};

verus! {

/// The two kinds of wildcard a pattern may hold.
#[derive(Clone, Copy, Debug, PartialEq, Eq, Structural)]
pub enum Wildcard {
    /// Matches exactly one subtree, of any shape.
    Subtree,
    /// Matches zero or more consecutive sibling subtrees.
    Siblings,
}

/// One element of a pattern: a literal leaf or a wildcard.
#[derive(Clone, Copy, Debug)]
pub enum Item<T> {
    Wildcard(Wildcard),
    Concrete(T),
}

pub open spec fn is_wildcard<T>(item: Item<T>) -> bool {
    item is Wildcard
}

/// Number of wildcard items among the first `n` items of `items`.
pub open spec fn count_holes<T>(items: Seq<Item<T>>, n: int) -> nat
    decreases n,
{
    if n <= 0 {
        0
    } else {
        count_holes(items, n - 1) + if is_wildcard(items[n - 1]) { 1nat } else { 0nat }
    }
}

pub proof fn lemma_count_holes_bound<T>(items: Seq<Item<T>>, n: int)
    requires
        0 <= n,
    ensures
        count_holes(items, n) <= n,
    decreases n,
{
    if n > 0 {
        lemma_count_holes_bound(items, n - 1);
    }
}

/// The first of two outcomes that is a match.
pub open spec fn or(a: Option<Seq<usize>>, b: Option<Seq<usize>>) -> Option<Seq<usize>> {
    if a is Some {
        a
    } else {
        b
    }
}

/// The first match, in the engine's order of preference, of the items from
/// `i` on, starting at path `c`. With `ph` set the first item stands on `c`
/// itself; without it, on the next subtree after `c`. A match ends on the
/// path of the last node consumed.
pub open spec fn first_match(t: &Tree, items: Seq<Item<Token>>, i: int, c: Seq<usize>, ph: bool) -> Option<
    Seq<usize>,
>
    decreases items.len() - i, if ph {
        1int
    } else {
        2int
    }, t.nodes@.len() - last(c), 1int,
{
    if i < 0 || i > items.len() {
        None
    } else if i == items.len() {
        Some(c)
    } else if ph {
        match_item(t, items, i, c)
    } else {
        match t.next_subtree(c) {
            Some(c1) => match_item(t, items, i, c1),
            None => None,
        }
    }
}

/// The first match of the items from `i` on, where item `i` stands on `c`.
/// A literal takes the first leaf under `c`; a subtree wildcard takes `c`
/// whole, and failing that descends to its first child; a siblings wildcard
/// takes nothing, then one more subtree at a time, and failing all that
/// descends as well.
pub open spec fn match_item(t: &Tree, items: Seq<Item<Token>>, i: int, c: Seq<usize>) -> Option<
    Seq<usize>,
>
    decreases items.len() - i, 1int, t.nodes@.len() - last(c), 0int,
{
    if 0 <= i < items.len() {
        let down = match t.first_child(c) {
            Some(d) => if last(c) < last(d) < t.nodes@.len() {
                first_match(t, items, i, d, true)
            } else {
                None
            },
            None => None,
        };
        match items[i] {
            Item::Concrete(tok) => {
                let l = t.first_leaf(c);
                if t.text_of(last(l)) == tok.0@ {
                    first_match(t, items, i + 1, l, false)
                } else {
                    None
                }
            },
            Item::Wildcard(Wildcard::Subtree) => or(first_match(t, items, i + 1, c, false), down),
            Item::Wildcard(Wildcard::Siblings) => or(
                first_match(t, items, i + 1, c, true),
                or(more_siblings(t, items, i + 1, c), down),
            ),
        }
    } else {
        None
    }
}

/// The first match of the items from `j` on after a siblings wildcard that
/// has taken `c` and may go on to the siblings after it.
pub open spec fn more_siblings(t: &Tree, items: Seq<Item<Token>>, j: int, c: Seq<usize>) -> Option<
    Seq<usize>,
>
    decreases items.len() - j, 3int, t.nodes@.len() - last(c), 0int,
{
    if 0 <= j <= items.len() {
        or(
            first_match(t, items, j, c, false),
            match t.next_sibling(c) {
                Some(c2) => if last(c) < last(c2) < t.nodes@.len() {
                    more_siblings(t, items, j, c2)
                } else {
                    None
                },
                None => None,
            },
        )
    } else {
        None
    }
}

/// What trying the first child of `c` for item `i` gives.
pub open spec fn descend(t: &Tree, items: Seq<Item<Token>>, i: int, c: Seq<usize>) -> Option<Seq<usize>> {
    match t.first_child(c) {
        Some(d) => if last(c) < last(d) < t.nodes@.len() {
            first_match(t, items, i, d, true)
        } else {
            None
        },
        None => None,
    }
}

/// What trying the siblings after `c` for the items from `j` gives.
pub open spec fn next_siblings(t: &Tree, items: Seq<Item<Token>>, j: int, c: Seq<usize>) -> Option<
    Seq<usize>,
> {
    match t.next_sibling(c) {
        Some(c2) => if last(c) < last(c2) < t.nodes@.len() {
            more_siblings(t, items, j, c2)
        } else {
            None
        },
        None => None,
    }
}

/// A match ends on a well-formed path no earlier in preorder than where it
/// began.
pub proof fn lemma_forward_first(t: &Tree, items: Seq<Item<Token>>, i: int, c: Seq<usize>, ph: bool)
    requires
        t.wf(),
        t.path_wf(c),
    ensures
        first_match(t, items, i, c, ph) matches Some(e) ==> t.path_wf(e) && last(c) <= last(e),
    decreases items.len() - i, if ph {
        1int
    } else {
        2int
    }, t.nodes@.len() - last(c), 1int,
{
    if 0 <= i < items.len() {
        if ph {
            lemma_forward_item(t, items, i, c);
        } else {
            match t.next_subtree(c) {
                Some(c1) => {
                    t.lemma_next_subtree(c);
                    lemma_forward_item(t, items, i, c1);
                },
                None => {},
            }
        }
    }
}

pub proof fn lemma_forward_item(t: &Tree, items: Seq<Item<Token>>, i: int, c: Seq<usize>)
    requires
        t.wf(),
        t.path_wf(c),
    ensures
        match_item(t, items, i, c) matches Some(e) ==> t.path_wf(e) && last(c) <= last(e),
    decreases items.len() - i, 1int, t.nodes@.len() - last(c), 0int,
{
    if 0 <= i < items.len() {
        match t.first_child(c) {
            Some(d) => {
                t.lemma_first_child(c);
                lemma_forward_first(t, items, i, d, true);
            },
            None => {},
        }
        match items[i] {
            Item::Concrete(tok) => {
                let l = t.first_leaf(c);
                t.lemma_first_leaf(c);
                lemma_forward_first(t, items, i + 1, l, false);
            },
            Item::Wildcard(Wildcard::Subtree) => {
                lemma_forward_first(t, items, i + 1, c, false);
            },
            Item::Wildcard(Wildcard::Siblings) => {
                lemma_forward_first(t, items, i + 1, c, true);
                lemma_forward_more(t, items, i + 1, c);
            },
        }
    }
}

pub proof fn lemma_forward_more(t: &Tree, items: Seq<Item<Token>>, j: int, c: Seq<usize>)
    requires
        t.wf(),
        t.path_wf(c),
    ensures
        more_siblings(t, items, j, c) matches Some(e) ==> t.path_wf(e) && last(c) <= last(e),
    decreases items.len() - j, 3int, t.nodes@.len() - last(c), 0int,
{
    if 0 <= j <= items.len() {
        lemma_forward_first(t, items, j, c, false);
        match t.next_sibling(c) {
            Some(c2) => {
                t.lemma_next_sibling(c);
                lemma_forward_more(t, items, j, c2);
            },
            None => {},
        }
    }
}

spec fn cost_first(t: &Tree, items: Seq<Item<Token>>, i: int, c: Seq<usize>, ph: bool) -> nat
    decreases items.len() - i, if ph {
        1int
    } else {
        2int
    }, t.nodes@.len() - last(c), 1int,
{
    if i < 0 || i > items.len() {
        0
    } else if i == items.len() {
        1
    } else if ph {
        1 + cost_item(t, items, i, c)
    } else {
        match t.next_subtree(c) {
            Some(c1) => 1 + cost_item(t, items, i, c1),
            None => 1,
        }
    }
}

spec fn cost_item(t: &Tree, items: Seq<Item<Token>>, i: int, c: Seq<usize>) -> nat
    decreases items.len() - i, 1int, t.nodes@.len() - last(c), 0int,
{
    if 0 <= i < items.len() {
        let down: nat = 1 + match t.first_child(c) {
            Some(d) => if last(c) < last(d) < t.nodes@.len() {
                cost_first(t, items, i, d, true)
            } else {
                0
            },
            None => 0,
        };
        match items[i] {
            Item::Concrete(tok) => {
                let l = t.first_leaf(c);
                1 + if t.text_of(last(l)) == tok.0@ {
                    cost_first(t, items, i + 1, l, false)
                } else {
                    0
                }
            },
            Item::Wildcard(Wildcard::Subtree) => 1 + cost_first(t, items, i + 1, c, false) + down,
            Item::Wildcard(Wildcard::Siblings) => 1 + cost_first(t, items, i + 1, c, true)
                + cost_more(t, items, i + 1, c) + down,
        }
    } else {
        0
    }
}

spec fn cost_more(t: &Tree, items: Seq<Item<Token>>, j: int, c: Seq<usize>) -> nat
    decreases items.len() - j, 3int, t.nodes@.len() - last(c), 0int,
{
    if 0 <= j <= items.len() {
        1 + cost_first(t, items, j, c, false) + 1 + match t.next_sibling(c) {
            Some(c2) => if last(c) < last(c2) < t.nodes@.len() {
                cost_more(t, items, j, c2)
            } else {
                0
            },
            None => 0,
        }
    } else {
        0
    }
}

spec fn cost_descend(t: &Tree, items: Seq<Item<Token>>, i: int, c: Seq<usize>) -> nat {
    1 + match t.first_child(c) {
        Some(d) => if last(c) < last(d) < t.nodes@.len() {
            cost_first(t, items, i, d, true)
        } else {
            0
        },
        None => 0,
    }
}

spec fn cost_next(t: &Tree, items: Seq<Item<Token>>, j: int, c: Seq<usize>) -> nat {
    1 + match t.next_sibling(c) {
        Some(c2) => if last(c) < last(c2) < t.nodes@.len() {
            cost_more(t, items, j, c2)
        } else {
            0
        },
        None => 0,
    }
}

/// An alternative left for later: where to go on, and how.
struct Frame<'t> {
    kind: Wildcard,
    pos: usize,
    cursor: Cursor<'t>,
    phantom: bool,
}

spec fn resume(t: &Tree, items: Seq<Item<Token>>, f: Frame) -> Option<Seq<usize>> {
    match f.kind {
        Wildcard::Subtree => descend(t, items, f.pos as int, f.cursor.path@),
        Wildcard::Siblings => if f.phantom {
            more_siblings(t, items, f.pos as int, f.cursor.path@)
        } else {
            next_siblings(t, items, f.pos as int, f.cursor.path@)
        },
    }
}

spec fn cost_resume(t: &Tree, items: Seq<Item<Token>>, f: Frame) -> nat {
    match f.kind {
        Wildcard::Subtree => cost_descend(t, items, f.pos as int, f.cursor.path@),
        Wildcard::Siblings => if f.phantom {
            cost_more(t, items, f.pos as int, f.cursor.path@)
        } else {
            cost_next(t, items, f.pos as int, f.cursor.path@)
        },
    }
}

/// What the alternatives on the stack give, the last pushed tried first.
spec fn alternatives(t: &Tree, items: Seq<Item<Token>>, s: Seq<Frame>) -> Option<Seq<usize>>
    decreases s.len(),
{
    if s.len() == 0 {
        None
    } else {
        or(resume(t, items, s.last()), alternatives(t, items, s.drop_last()))
    }
}

spec fn cost_stack(t: &Tree, items: Seq<Item<Token>>, s: Seq<Frame>) -> nat
    decreases s.len(),
{
    if s.len() == 0 {
        0
    } else {
        cost_resume(t, items, s.last()) + cost_stack(t, items, s.drop_last())
    }
}

spec fn frame_ok(t: &Tree, n: int, f: Frame) -> bool {
    &&& f.cursor.wf()
    &&& f.cursor.tree == t
    &&& f.pos <= n
    &&& f.kind == Wildcard::Subtree ==> f.pos < n
}

spec fn stack_ok(t: &Tree, n: int, s: Seq<Frame>) -> bool {
    forall|k: int| 0 <= k < s.len() ==> frame_ok(t, n, #[trigger] s[k])
}

proof fn lemma_push_ok(t: &Tree, n: int, s: Seq<Frame>, f: Frame)
    requires
        stack_ok(t, n, s),
        frame_ok(t, n, f),
    ensures
        stack_ok(t, n, s.push(f)),
        s.push(f).drop_last() == s,
        s.push(f).last() == f,
{
    assert(s.push(f).drop_last() =~= s);
    assert forall|k: int| 0 <= k < s.push(f).len() implies frame_ok(t, n, #[trigger] s.push(f)[k]) by {
        if k < s.len() {
            assert(s.push(f)[k] == s[k]);
        }
    }
}

proof fn lemma_pop_ok(t: &Tree, n: int, s: Seq<Frame>)
    requires
        stack_ok(t, n, s),
        s.len() > 0,
    ensures
        stack_ok(t, n, s.drop_last()),
        frame_ok(t, n, s.last()),
{
    assert forall|k: int| 0 <= k < s.drop_last().len() implies frame_ok(
        t,
        n,
        #[trigger] s.drop_last()[k],
    ) by {
        assert(s.drop_last()[k] == s[k]);
    }
}

/// Item `i` is tried on the subtree the cursor stands on. Returns whether
/// the search goes on forward.
fn take_item<'t>(
    items: &[Item<Token>],
    lo: usize,
    hi: usize,
    cursor: &mut Cursor<'t>,
    i: &mut usize,
    phantom: &mut bool,
    stack: &mut Vec<Frame<'t>>,
) -> (r: bool)
    requires
        lo <= hi <= items@.len(),
        *old(i) < hi - lo,
        old(cursor).wf(),
        stack_ok(old(cursor).tree, (hi - lo) as int, old(stack)@),
    ensures
        ({
            let seq = items@.subrange(lo as int, hi as int);
            let t = old(cursor).tree;
            let before = or(
                match_item(t, seq, *old(i) as int, old(cursor).path@),
                alternatives(t, seq, old(stack)@),
            );
            let cost = cost_item(t, seq, *old(i) as int, old(cursor).path@) + cost_stack(
                t,
                seq,
                old(stack)@,
            );
            &&& final(cursor).wf()
            &&& final(cursor).tree == t
            &&& *final(i) <= hi - lo
            &&& stack_ok(t, (hi - lo) as int, final(stack)@)
            &&& r ==> before == or(
                first_match(t, seq, *final(i) as int, final(cursor).path@, *final(phantom)),
                alternatives(t, seq, final(stack)@),
            )
            &&& r ==> cost_first(t, seq, *final(i) as int, final(cursor).path@, *final(phantom))
                + cost_stack(t, seq, final(stack)@) < cost
            &&& !r ==> before == alternatives(t, seq, final(stack)@)
            &&& !r ==> cost_stack(t, seq, final(stack)@) < cost
        }),
{
    let ghost seq = items@.subrange(lo as int, hi as int);
    let ghost t = cursor.tree;
    let ghost c1 = cursor.path@;
    let n = hi - lo;
    assert(seq[*i as int] == items@[lo + *i]);
    match &items[lo + *i] {
        Item::Concrete(tok) => {
            let leaf = cursor.move_first_leaf();
            *phantom = false;
            if cursor.tree.text_eq(leaf, &tok.0) {
                *i = *i + 1;
                true
            } else {
                false
            }
        },
        Item::Wildcard(w) => {
            proof {
                if t.first_child(c1) is Some {
                    t.lemma_first_child(c1);
                }
            }
            assert(descend(t, seq, *i as int, c1) == match t.first_child(c1) {
                Some(d) => first_match(t, seq, *i as int, d, true),
                None => None,
            });
            let ghost s0 = stack@;
            let ghost i0 = *i as int;
            let ck = cursor.checkpoint();
            let f = Frame { kind: Wildcard::Subtree, pos: *i, cursor: ck, phantom: false };
            assert(resume(t, seq, f) == descend(t, seq, i0, c1));
            assert(cost_resume(t, seq, f) == cost_descend(t, seq, i0, c1));
            proof {
                lemma_push_ok(t, n as int, stack@, f);
            }
            stack.push(f);
            match w {
                Wildcard::Siblings => {
                    let ghost s1 = stack@;
                    assert(cost_stack(t, seq, s1) == cost_resume(t, seq, f) + cost_stack(t, seq, s0));
                    assert(alternatives(t, seq, s1) == or(resume(t, seq, f), alternatives(t, seq, s0)));
                    let ck2 = cursor.checkpoint();
                    let f2 = Frame { kind: Wildcard::Siblings, pos: *i + 1, cursor: ck2, phantom: true };
                    proof {
                        lemma_push_ok(t, n as int, stack@, f2);
                    }
                    stack.push(f2);
                    *phantom = true;
                    assert(resume(t, seq, f2) == more_siblings(t, seq, i0 + 1, c1));
                    assert(alternatives(t, seq, stack@) == or(
                        resume(t, seq, f2),
                        or(resume(t, seq, f), alternatives(t, seq, s0)),
                    ));
                    assert(cost_stack(t, seq, stack@) == cost_resume(t, seq, f2) + cost_resume(t, seq, f)
                        + cost_stack(t, seq, s0));
                    assert(match_item(t, seq, i0, c1) == or(
                        first_match(t, seq, i0 + 1, c1, true),
                        or(more_siblings(t, seq, i0 + 1, c1), descend(t, seq, i0, c1)),
                    ));
                },
                Wildcard::Subtree => {
                    *phantom = false;
                    assert(alternatives(t, seq, stack@) == or(resume(t, seq, f), alternatives(t, seq, s0)));
                    assert(cost_stack(t, seq, stack@) == cost_resume(t, seq, f) + cost_stack(t, seq, s0));
                    assert(match_item(t, seq, i0, c1) == or(
                        first_match(t, seq, i0 + 1, c1, false),
                        descend(t, seq, i0, c1),
                    ));
                },
            }
            *i = *i + 1;
            true
        },
    }
}

/// One step forward: the item at `i` is tried on the subtree it stands on.
/// Returns whether the search goes on forward.
fn step_forward<'t>(
    items: &[Item<Token>],
    lo: usize,
    hi: usize,
    cursor: &mut Cursor<'t>,
    i: &mut usize,
    phantom: &mut bool,
    stack: &mut Vec<Frame<'t>>,
) -> (r: bool)
    requires
        lo <= hi <= items@.len(),
        *old(i) < hi - lo,
        old(cursor).wf(),
        stack_ok(old(cursor).tree, (hi - lo) as int, old(stack)@),
    ensures
        ({
            let seq = items@.subrange(lo as int, hi as int);
            let t = old(cursor).tree;
            let before = or(
                first_match(t, seq, *old(i) as int, old(cursor).path@, *old(phantom)),
                alternatives(t, seq, old(stack)@),
            );
            let cost = cost_first(t, seq, *old(i) as int, old(cursor).path@, *old(phantom))
                + cost_stack(t, seq, old(stack)@);
            &&& final(cursor).wf()
            &&& final(cursor).tree == t
            &&& *final(i) <= hi - lo
            &&& stack_ok(t, (hi - lo) as int, final(stack)@)
            &&& r ==> before == or(
                first_match(t, seq, *final(i) as int, final(cursor).path@, *final(phantom)),
                alternatives(t, seq, final(stack)@),
            )
            &&& r ==> cost_first(t, seq, *final(i) as int, final(cursor).path@, *final(phantom))
                + cost_stack(t, seq, final(stack)@) < cost
            &&& !r ==> before == alternatives(t, seq, final(stack)@)
            &&& !r ==> cost_stack(t, seq, final(stack)@) < cost
        }),
{
    let ghost seq = items@.subrange(lo as int, hi as int);
    let ghost t = cursor.tree;
    let ghost c0 = cursor.path@;
    if !*phantom {
        if !cursor.move_next_subtree() {
            return false;
        }
        proof {
            t.lemma_next_subtree(c0);
        }
    }
    let ghost c1 = cursor.path@;
    assert(first_match(t, seq, *i as int, c0, *phantom) == match_item(t, seq, *i as int, c1));
    assert(cost_first(t, seq, *i as int, c0, *phantom) == 1 + cost_item(t, seq, *i as int, c1));
    take_item(items, lo, hi, cursor, i, phantom, stack)
}

/// One step back: the alternative pushed last is taken up. Returns whether
/// the search goes on forward from it.
fn step_back<'t>(
    items: &[Item<Token>],
    lo: usize,
    hi: usize,
    cursor: &mut Cursor<'t>,
    i: &mut usize,
    phantom: &mut bool,
    stack: &mut Vec<Frame<'t>>,
) -> (r: bool)
    requires
        lo <= hi <= items@.len(),
        old(cursor).wf(),
        old(stack)@.len() > 0,
        stack_ok(old(cursor).tree, (hi - lo) as int, old(stack)@),
    ensures
        ({
            let seq = items@.subrange(lo as int, hi as int);
            let t = old(cursor).tree;
            let before = alternatives(t, seq, old(stack)@);
            let cost = cost_stack(t, seq, old(stack)@);
            &&& final(cursor).wf()
            &&& final(cursor).tree == t
            &&& *final(i) <= hi - lo
            &&& stack_ok(t, (hi - lo) as int, final(stack)@)
            &&& r ==> before == or(
                first_match(t, seq, *final(i) as int, final(cursor).path@, *final(phantom)),
                alternatives(t, seq, final(stack)@),
            )
            &&& r ==> cost_first(t, seq, *final(i) as int, final(cursor).path@, *final(phantom))
                + cost_stack(t, seq, final(stack)@) < cost
            &&& !r ==> before == alternatives(t, seq, final(stack)@)
            &&& !r ==> cost_stack(t, seq, final(stack)@) < cost
        }),
{
    let ghost seq = items@.subrange(lo as int, hi as int);
    let ghost t = cursor.tree;
    let ghost s0 = stack@;
    let n = hi - lo;
    proof {
        lemma_pop_ok(t, n as int, s0);
    }
    let f = stack.pop().unwrap();
    let Frame { kind, pos, cursor: fc, phantom: fph } = f;
    *cursor = fc;
    *i = pos;
    let ghost c = cursor.path@;
    match kind {
        Wildcard::Subtree => {
            if cursor.move_first_child() {
                proof {
                    t.lemma_first_child(c);
                }
                *phantom = true;
                true
            } else {
                false
            }
        },
        Wildcard::Siblings => {
            if fph {
                let ck = cursor.checkpoint();
                let f2 = Frame { kind: Wildcard::Siblings, pos: *i, cursor: ck, phantom: false };
                proof {
                    lemma_push_ok(t, n as int, stack@, f2);
                }
                stack.push(f2);
                *phantom = false;
                true
            } else if cursor.move_next_sibling() {
                proof {
                    t.lemma_next_sibling(c);
                }
                let ck = cursor.checkpoint();
                let f2 = Frame { kind: Wildcard::Siblings, pos: *i, cursor: ck, phantom: false };
                proof {
                    lemma_push_ok(t, n as int, stack@, f2);
                }
                stack.push(f2);
                *phantom = false;
                true
            } else {
                false
            }
        },
    }
}

/// Matches the items `items[lo..hi]` starting exactly at `cursor`: the
/// first item stands on the cursor's node, each later one on the subtree
/// that follows what the item before it consumed. Returns the cursor on the
/// last node consumed.
pub(crate) fn match_range<'t>(items: &[Item<Token>], lo: usize, hi: usize, start: Cursor<'t>) -> (r: Option<
    Cursor<'t>,
>)
    requires
        lo <= hi <= items@.len(),
        start.wf(),
    ensures
        ({
            let seq = items@.subrange(lo as int, hi as int);
            match r {
                Some(e) => {
                    &&& e.wf()
                    &&& e.tree == start.tree
                    &&& first_match(start.tree, seq, 0, start.path@, true) == Some(e.path@)
                },
                None => first_match(start.tree, seq, 0, start.path@, true) is None,
            }
        }),
{
    let ghost seq = items@.subrange(lo as int, hi as int);
    let ghost t = start.tree;
    let ghost target = first_match(t, seq, 0, start.path@, true);
    let n = hi - lo;
    let mut cursor = start;
    let mut i: usize = 0;
    let mut phantom = true;
    let mut forward = true;
    let mut stack: Vec<Frame<'t>> = Vec::new();
    assert(alternatives(t, seq, stack@) is None);
    loop
        invariant
            lo <= hi <= items@.len(),
            n == hi - lo,
            seq == items@.subrange(lo as int, hi as int),
            t == start.tree,
            target == first_match(t, seq, 0, start.path@, true),
            cursor.wf(),
            cursor.tree == t,
            i <= n,
            stack_ok(t, n as int, stack@),
            forward ==> target == or(
                first_match(t, seq, i as int, cursor.path@, phantom),
                alternatives(t, seq, stack@),
            ),
            !forward ==> target == alternatives(t, seq, stack@),
        decreases
            (if forward {
                cost_first(t, seq, i as int, cursor.path@, phantom)
            } else {
                0
            }) + cost_stack(t, seq, stack@),
    {
        if forward {
            if i == n {
                assert(first_match(t, seq, i as int, cursor.path@, phantom) == Some(cursor.path@));
                return Some(cursor);
            }
            forward = step_forward(items, lo, hi, &mut cursor, &mut i, &mut phantom, &mut stack);
        } else {
            if stack.len() == 0 {
                assert(alternatives(t, seq, stack@) is None);
                return None;
            }
            forward = step_back(items, lo, hi, &mut cursor, &mut i, &mut phantom, &mut stack);
        }
    }
}

/// Matches the whole of `pattern` starting exactly at `cursor`. On success
/// the cursor returned stands on the last node the match consumed.
pub fn match_at<'t>(pattern: &[Item<Token>], cursor: Cursor<'t>) -> (r: Option<Cursor<'t>>)
    requires
        cursor.wf(),
    ensures
        match r {
            Some(e) => {
                &&& e.wf()
                &&& e.tree == cursor.tree
                &&& first_match(cursor.tree, pattern@, 0, cursor.path@, true) == Some(e.path@)
            },
            None => first_match(cursor.tree, pattern@, 0, cursor.path@, true) is None,
        },
{
    assert(pattern@.subrange(0, pattern@.len() as int) =~= pattern@);
    match_range(pattern, 0, pattern.len(), cursor)
}

} // verus!
