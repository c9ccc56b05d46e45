use vstd::prelude::*;

verus! {

/// One node of a parsed tree. A tree keeps its nodes in preorder: the first
/// child of a node, if it has one, comes right after it, and the next
/// sibling comes `size` places after it.
#[derive(Clone, Copy, Debug, PartialEq, Eq, Structural)]
pub struct Node {
    /// The parser's identifier of the node's kind.
    pub kind: u16,
    /// Byte range of the node in the source text.
    pub start: usize,
    pub end: usize,
    /// An insignificant node (a comment), skipped while matching.
    pub extra: bool,
    /// Index of the parent node (the root names itself).
    pub parent: usize,
    /// Number of nodes in the subtree rooted here, this one included: the
    /// distance to the next sibling.
    pub size: usize,
}

/// A parsed text: its bytes and its nodes in preorder, root first.
#[derive(Debug)]
pub struct Tree {
    pub text: Vec<u8>,
    pub nodes: Vec<Node>,
}

/// A position in a tree: the indices of the nodes on the way from the root
/// down to the current node.
#[derive(Clone, Debug)]
pub struct Cursor<'t> {
    pub tree: &'t Tree,
    pub path: Vec<usize>,
}

/// Nodes in preorder: every node comes after its parent, its index range
/// `n .. n + size` lies inside its parent's, and every byte range lies in
/// the text. A node is a leaf when the node after it is not its child.
pub open spec fn layout_ok(text: Seq<u8>, nodes: Seq<Node>) -> bool {
    &&& 0 < nodes.len() <= usize::MAX
    &&& forall|n: int|
        0 <= n < nodes.len() ==> {
            &&& (#[trigger] nodes[n]).size >= 1
            &&& n + nodes[n].size <= nodes.len()
            &&& nodes[n].start <= nodes[n].end <= text.len()
        }
    &&& forall|n: int|
        0 < n < nodes.len() ==> {
            &&& #[trigger] nodes[n].parent < n
            &&& n + nodes[n].size <= nodes[n].parent + nodes[nodes[n].parent as int].size
        }
}

pub open spec fn last(p: Seq<usize>) -> int {
    p[p.len() - 1] as int
}

impl Tree {
    /// Sizes and parent links describe a preorder layout, and every byte range
    /// lies in the text.
    pub open spec fn wf(&self) -> bool {
        layout_ok(self.text@, self.nodes@)
    }

    pub open spec fn size_of(&self, n: int) -> int {
        self.nodes@[n].size as int
    }

    /// A path from the root to a node, each step going to a child that lies
    /// inside the subtree of the step before.
    pub open spec fn path_wf(&self, p: Seq<usize>) -> bool {
        &&& p.len() >= 1
        &&& p[0] == 0
        &&& forall|k: int| 0 <= k < p.len() ==> #[trigger] p[k] < self.nodes@.len()
        &&& forall|k: int|
            1 <= k < p.len() ==> {
                &&& self.nodes@[#[trigger] p[k] as int].parent == p[k - 1]
                &&& p[k - 1] < p[k]
            }
    }

    /// Node `n` has no child: the node after it, if any, is not its child.
    pub open spec fn is_leaf(&self, n: int) -> bool {
        !(n + 1 < self.nodes@.len() && self.nodes@[n + 1].parent == n)
    }

    /// Text of the node at index `n`.
    pub open spec fn text_of(&self, n: int) -> Seq<u8> {
        self.text@.subrange(self.nodes@[n].start as int, self.nodes@[n].end as int)
    }

    pub open spec fn is_extra(&self, n: int) -> bool {
        self.nodes@[n].extra
    }

    /// The first child of the current node, whatever its kind.
    pub open spec fn raw_first_child(&self, p: Seq<usize>) -> Option<Seq<usize>> {
        let n = last(p);
        if p.len() >= 1 && n + 1 < self.nodes@.len() && n + 1 <= usize::MAX && self.nodes@[n
            + 1].parent == n {
            Some(p.push((n + 1) as usize))
        } else {
            None
        }
    }

    /// The next sibling of node `c` under parent `par` that is not an extra
    /// node.
    pub open spec fn sibling_idx(&self, par: int, c: int) -> Option<int>
        decreases self.nodes@.len() - c,
    {
        if 0 <= c < self.nodes@.len() && self.size_of(c) >= 1 {
            let s = c + self.size_of(c);
            if s < self.nodes@.len() && self.nodes@[s].parent == par {
                if self.is_extra(s) {
                    self.sibling_idx(par, s)
                } else {
                    Some(s)
                }
            } else {
                None
            }
        } else {
            None
        }
    }

    /// The next sibling that is not an extra node.
    pub open spec fn next_sibling(&self, p: Seq<usize>) -> Option<Seq<usize>> {
        if p.len() >= 2 {
            match self.sibling_idx(p[p.len() - 2] as int, last(p)) {
                Some(s) => Some(p.drop_last().push(s as usize)),
                None => None,
            }
        } else {
            None
        }
    }

    /// The first child that is not an extra node.
    pub open spec fn first_child(&self, p: Seq<usize>) -> Option<Seq<usize>> {
        match self.raw_first_child(p) {
            Some(q) => if self.is_extra(last(q)) {
                self.next_sibling(q)
            } else {
                Some(q)
            },
            None => None,
        }
    }

    /// The next subtree in preorder that is not inside the current one: the
    /// next sibling of the nearest node on the path that has one.
    pub open spec fn next_subtree(&self, p: Seq<usize>) -> Option<Seq<usize>>
        decreases p.len(),
    {
        if p.len() == 0 {
            None
        } else {
            match self.next_sibling(p) {
                Some(q) => Some(q),
                None => if p.len() >= 2 {
                    self.next_subtree(p.drop_last())
                } else {
                    None
                },
            }
        }
    }

    /// The leaf reached by taking first children for as long as there is one.
    pub open spec fn first_leaf(&self, p: Seq<usize>) -> Seq<usize>
        decreases self.nodes@.len() - last(p),
    {
        match self.first_child(p) {
            Some(q) => if last(p) < last(q) < self.nodes@.len() {
                self.first_leaf(q)
            } else {
                p
            },
            None => p,
        }
    }
}


impl Tree {
    /// A path that is a prefix of a well-formed path is well-formed.
    pub proof fn lemma_prefix(&self, p: Seq<usize>, m: int)
        requires
            self.path_wf(p),
            1 <= m <= p.len(),
        ensures
            self.path_wf(p.subrange(0, m)),
    {
        let q = p.subrange(0, m);
        assert forall|k: int| 1 <= k < q.len() implies self.nodes@[#[trigger] q[k] as int].parent
            == q[k - 1] && q[k - 1] < q[k] by {
            assert(q[k] == p[k] && q[k - 1] == p[k - 1]);
        }
    }

    /// Replacing the last node of a path by a child of the node before it
    /// keeps the path well-formed.
    pub proof fn lemma_replace_last(&self, p: Seq<usize>, s: int)
        requires
            self.wf(),
            self.path_wf(p),
            p.len() >= 2,
            0 < s < self.nodes@.len(),
            s <= usize::MAX,
            self.nodes@[s].parent == p[p.len() - 2],
        ensures
            self.path_wf(p.drop_last().push(s as usize)),
    {
        let q = p.drop_last().push(s as usize);
        let n = p.len() - 1;
        assert(q[n] == s);
        assert forall|k: int| 1 <= k < q.len() implies self.nodes@[#[trigger] q[k] as int].parent
            == q[k - 1] && q[k - 1] < q[k] by {
            if k < n {
                assert(q[k] == p[k] && q[k - 1] == p[k - 1]);
            } else {
                assert(q[k - 1] == p[k - 1]);
            }
        }
        assert forall|k: int| 0 <= k < q.len() implies #[trigger] q[k] < self.nodes@.len() by {
            if k < n {
                assert(q[k] == p[k]);
            }
        }
    }

        pub proof fn lemma_sibling_idx(&self, par: int, c: int)
        requires
            self.wf(),
            self.sibling_idx(par, c) is Some,
        ensures
            ({
                let s = self.sibling_idx(par, c)->0;
                &&& c + self.size_of(c) <= s < self.nodes@.len()
                &&& self.nodes@[s].parent == par
                &&& !self.is_extra(s)
            }),
        decreases self.nodes@.len() - c,
    {
        let s = c + self.size_of(c);
        if self.is_extra(s) {
            self.lemma_sibling_idx(par, s);
        }
    }

    pub proof fn lemma_next_sibling(&self, p: Seq<usize>)
        requires
            self.wf(),
            self.path_wf(p),
            self.next_sibling(p) is Some,
        ensures
            ({
                let q = self.next_sibling(p)->0;
                &&& self.path_wf(q)
                &&& q.len() == p.len()
                &&& q.drop_last() == p.drop_last()
                &&& last(q) >= last(p) + self.size_of(last(p))
                &&& !self.is_extra(last(q))
            }),
    {
        let s = self.sibling_idx(p[p.len() - 2] as int, last(p))->0;
        self.lemma_sibling_idx(p[p.len() - 2] as int, last(p));
        let q = p.drop_last().push(s as usize);
        self.lemma_replace_last(p, s);
        assert(q.drop_last() =~= p.drop_last());
        assert(q[q.len() - 1] == s);
    }

    pub proof fn lemma_raw_first_child(&self, p: Seq<usize>)
        requires
            self.wf(),
            self.path_wf(p),
            self.raw_first_child(p) is Some,
        ensures
            ({
                let q = self.raw_first_child(p)->0;
                &&& self.path_wf(q)
                &&& q.len() == p.len() + 1
                &&& q.drop_last() == p
                &&& last(q) == last(p) + 1
            }),
    {
        let n = last(p);
        let q = p.push((n + 1) as usize);
        assert(q[q.len() - 1] == n + 1);
        assert(q.drop_last() =~= p);
        assert forall|k: int| 1 <= k < q.len() implies self.nodes@[#[trigger] q[k] as int].parent
            == q[k - 1] && q[k - 1] < q[k] by {
            if k < p.len() {
                assert(q[k] == p[k] && q[k - 1] == p[k - 1]);
            }
        }
        assert forall|k: int| 0 <= k < q.len() implies #[trigger] q[k] < self.nodes@.len() by {
            if k < p.len() {
                assert(q[k] == p[k]);
            }
        }
    }

    pub proof fn lemma_first_child(&self, p: Seq<usize>)
        requires
            self.wf(),
            self.path_wf(p),
            self.first_child(p) is Some,
        ensures
            ({
                let q = self.first_child(p)->0;
                &&& self.path_wf(q)
                &&& q.len() == p.len() + 1
                &&& q.drop_last() == p
                &&& last(p) < last(q) < self.nodes@.len()
                &&& !self.is_extra(last(q))
            }),
    {
        self.lemma_raw_first_child(p);
        let q = self.raw_first_child(p)->0;
        if self.is_extra(last(q)) {
            self.lemma_next_sibling(q);
        }
    }

    pub proof fn lemma_next_subtree(&self, p: Seq<usize>)
        requires
            self.wf(),
            self.path_wf(p),
            self.next_subtree(p) is Some,
        ensures
            ({
                let q = self.next_subtree(p)->0;
                &&& self.path_wf(q)
                &&& 1 <= q.len() <= p.len()
                &&& last(q) >= last(p) + self.size_of(last(p))
                &&& !self.is_extra(last(q))
            }),
        decreases p.len(),
    {
        if self.next_sibling(p) is Some {
            self.lemma_next_sibling(p);
        } else {
            let r = p.drop_last();
            self.lemma_prefix(p, p.len() - 1);
            assert(r =~= p.subrange(0, p.len() - 1));
            self.lemma_next_subtree(r);
            assert(p[p.len() - 1] + self.size_of(p[p.len() - 1] as int) <= p[p.len() - 2]
                + self.size_of(p[p.len() - 2] as int));
        }
    }

    pub proof fn lemma_first_leaf(&self, p: Seq<usize>)
        requires
            self.wf(),
            self.path_wf(p),
        ensures
            self.path_wf(self.first_leaf(p)),
            last(p) <= last(self.first_leaf(p)),
            self.first_child(self.first_leaf(p)) is None,
        decreases self.nodes@.len() - last(p),
    {
        if self.first_child(p) is Some {
            self.lemma_first_child(p);
            self.lemma_first_leaf(self.first_child(p)->0);
        }
    }

    /// The next sibling of node `c` under parent `par` that is not an extra
    /// node.
    fn sibling_of(&self, par: usize, c0: usize) -> (r: Option<usize>)
        requires
            self.wf(),
            c0 < self.nodes@.len(),
        ensures
            r matches Some(s) ==> self.sibling_idx(par as int, c0 as int) == Some(s as int),
            r is None ==> self.sibling_idx(par as int, c0 as int) is None,
    {
        let len = self.nodes.len();
        let mut c = c0;
        loop
            invariant
                self.wf(),
                len == self.nodes@.len(),
                c < len,
                self.sibling_idx(par as int, c as int) == self.sibling_idx(par as int, c0 as int),
            decreases len - c,
        {
            let s = c + self.nodes[c].size;
            if s < len && self.nodes[s].parent == par {
                if !self.nodes[s].extra {
                    return Some(s);
                }
                c = s;
            } else {
                return None;
            }
        }
    }

    /// Whether node `n` has no child.
    pub fn leaf_at(&self, n: usize) -> (r: bool)
        requires
            n < self.nodes@.len(),
        ensures
            r == self.is_leaf(n as int),
    {
        !(n < self.nodes.len() - 1 && self.nodes[n + 1].parent == n)
    }

    /// A cursor at the root.
    pub fn walk(&self) -> (r: Cursor<'_>)
        requires
            self.wf(),
        ensures
            r.wf(),
            r.tree == self,
            r.path@ == seq![0usize],
    {
        let mut path: Vec<usize> = Vec::new();
        path.push(0);
        Cursor { tree: self, path }
    }
}

impl<'t> Cursor<'t> {
    pub open spec fn wf(&self) -> bool {
        self.tree.wf() && self.tree.path_wf(self.path@)
    }

    /// Index of the current node.
    pub fn node(&self) -> (r: usize)
        requires
            self.wf(),
        ensures
            r == last(self.path@),
    {
        self.path[self.path.len() - 1]
    }

    /// Moves to the next sibling that is not an extra node; stays put when
    /// there is none.
    pub fn move_next_sibling(&mut self) -> (r: bool)
        requires
            old(self).wf(),
        ensures
            final(self).wf(),
            final(self).tree == old(self).tree,
            r == (old(self).tree.next_sibling(old(self).path@) is Some),
            r ==> final(self).path@ == old(self).tree.next_sibling(old(self).path@)->0,
            !r ==> final(self).path@ == old(self).path@,
    {
        let l = self.path.len();
        if l < 2 {
            return false;
        }
        match self.tree.sibling_of(self.path[l - 2], self.path[l - 1]) {
            Some(s) => {
                proof {
                    self.tree.lemma_next_sibling(self.path@);
                }
                self.path.set(l - 1, s);
                assert(self.path@ =~= old(self).path@.drop_last().push(s));
                true
            },
            None => false,
        }
    }

    /// Moves to the first child that is not an extra node; stays put when
    /// there is none.
    pub fn move_first_child(&mut self) -> (r: bool)
        requires
            old(self).wf(),
        ensures
            final(self).wf(),
            final(self).tree == old(self).tree,
            r == (old(self).tree.first_child(old(self).path@) is Some),
            r ==> final(self).path@ == old(self).tree.first_child(old(self).path@)->0,
            !r ==> final(self).path@ == old(self).path@,
    {
        let ghost p = self.path@;
        let l = self.path.len();
        let n = self.path[l - 1];
        let len = self.tree.nodes.len();
        if !(n + 1 < len && self.tree.nodes[n + 1].parent == n) {
            return false;
        }
        let ghost q = p.push((n + 1) as usize);
        proof {
            self.tree.lemma_raw_first_child(p);
            assert(q[q.len() - 2] == n && q[q.len() - 1] == n + 1);
        }
        let target = if !self.tree.nodes[n + 1].extra {
            Some(n + 1)
        } else {
            self.tree.sibling_of(n, n + 1)
        };
        match target {
            Some(t) => {
                proof {
                    self.tree.lemma_first_child(p);
                }
                self.path.push(t);
                assert(self.path@ =~= self.tree.first_child(p)->0);
                true
            },
            None => false,
        }
    }

    /// Moves to the next subtree in preorder that is not inside the current
    /// one; when the traversal is over, ends at the root.
    pub fn move_next_subtree(&mut self) -> (r: bool)
        requires
            old(self).wf(),
        ensures
            final(self).wf(),
            final(self).tree == old(self).tree,
            r == (old(self).tree.next_subtree(old(self).path@) is Some),
            r ==> final(self).path@ == old(self).tree.next_subtree(old(self).path@)->0,
            !r ==> final(self).path@ == seq![0usize],
    {
        let ghost p = self.path@;
        let mut m = self.path.len();
        assert(p.subrange(0, m as int) =~= p);
        while m >= 2
            invariant
                self.wf(),
                self.path@ == p,
                *self == *old(self),
                1 <= m <= p.len(),
                self.tree.next_subtree(p) == self.tree.next_subtree(p.subrange(0, m as int)),
            decreases m,
        {
            let ghost pre = p.subrange(0, m as int);
            assert(pre[pre.len() - 2] == p[m - 2] && pre[pre.len() - 1] == p[m - 1]);
            match self.tree.sibling_of(self.path[m - 2], self.path[m - 1]) {
                Some(s) => {
                    proof {
                        self.tree.lemma_prefix(p, m as int);
                        self.tree.lemma_next_subtree(p);
                    }
                    self.path.truncate(m);
                    self.path.set(m - 1, s);
                    assert(self.path@ =~= pre.drop_last().push(s));
                    return true;
                },
                None => {
                    assert(pre.drop_last() =~= p.subrange(0, m - 1));
                    m = m - 1;
                },
            }
        }
        self.path.truncate(1);
        assert(self.path@ =~= seq![0usize]);
        false
    }

    /// Descends through first children down to a leaf, and returns its index.
    pub fn move_first_leaf(&mut self) -> (r: usize)
        requires
            old(self).wf(),
        ensures
            final(self).wf(),
            final(self).tree == old(self).tree,
            final(self).path@ == old(self).tree.first_leaf(old(self).path@),
            r == last(final(self).path@),
    {
        loop
            invariant
                self.wf(),
                self.tree == old(self).tree,
                old(self).tree.first_leaf(old(self).path@) == self.tree.first_leaf(self.path@),
            ensures
                self.wf(),
                self.tree == old(self).tree,
                self.path@ == old(self).tree.first_leaf(old(self).path@),
            decreases self.tree.nodes@.len() - last(self.path@),
        {
            let ghost p = self.path@;
            if !self.move_first_child() {
                assert(self.tree.first_leaf(p) == p);
                break;
            }
            proof {
                self.tree.lemma_first_child(p);
            }
        }
        self.node()
    }

    /// A copy of this position, to come back to later.
    pub fn checkpoint(&self) -> (r: Cursor<'t>)
        ensures
            r.tree == self.tree,
            r.path@ == self.path@,
    {
        let mut path: Vec<usize> = Vec::new();
        let mut i: usize = 0;
        while i < self.path.len()
            invariant
                i <= self.path@.len(),
                path@ == self.path@.subrange(0, i as int),
            decreases self.path@.len() - i,
        {
            path.push(self.path[i]);
            i = i + 1;
            assert(path@ =~= self.path@.subrange(0, i as int));
        }
        assert(path@ =~= self.path@);
        Cursor { tree: self.tree, path }
    }

    /// Returns to a position taken by `checkpoint`.
    pub fn restore(&mut self, checkpoint: Cursor<'t>)
        ensures
            *final(self) == checkpoint,
    {
        *self = checkpoint;
    }
}

} // verus!

verus! {

impl Tree {
    /// Whether the text of node `n` is exactly `bytes`.
    pub fn text_eq(&self, n: usize, bytes: &Vec<u8>) -> (r: bool)
        requires
            self.wf(),
            n < self.nodes@.len(),
        ensures
            r == (self.text_of(n as int) == bytes@),
    {
        let node = self.nodes[n];
        let len = node.end - node.start;
        if len != bytes.len() {
            proof {
                assert(self.text_of(n as int).len() == len);
            }
            return false;
        }
        let mut i: usize = 0;
        while i < len
            invariant
                self.wf(),
                node == self.nodes@[n as int],
                node.start <= node.end <= self.text@.len(),
                len == node.end - node.start,
                len == bytes@.len(),
                i <= len,
                forall|k: int| 0 <= k < i ==> self.text_of(n as int)[k] == bytes@[k],
            decreases len - i,
        {
            if self.text[node.start + i] != bytes[i] {
                assert(self.text_of(n as int)[i as int] != bytes@[i as int]);
                return false;
            }
            i = i + 1;
        }
        assert(self.text_of(n as int) =~= bytes@);
        true
    }
}

} // verus!

verus! {

/// Byte ranges sorted by position, none overlapping another.
pub open spec fn spans_ok(spans: Seq<(usize, usize)>) -> bool {
    &&& forall|k: int| 0 <= k < spans.len() ==> (#[trigger] spans[k]).0 <= spans[k].1
    &&& forall|j: int, k: int| 0 <= j < k < spans.len() ==> (#[trigger] spans[j]).1 <= (
    #[trigger] spans[k]).0
}

/// Span `k` is the first one that ends after `start`.
pub open spec fn first_after(spans: Seq<(usize, usize)>, start: int, k: int) -> bool {
    &&& 0 <= k < spans.len()
    &&& spans[k].1 > start
    &&& forall|j: int| 0 <= j < k ==> (#[trigger] spans[j]).1 <= start
}

/// Span `k` lies within `start .. end` and begins before its end.
pub open spec fn within(spans: Seq<(usize, usize)>, k: int, start: int, end: int) -> bool {
    start <= spans[k].0 && spans[k].0 < end && spans[k].1 <= end
}

/// Finds, by binary search, the span registered for the byte range
/// `start .. end`: the first span that ends after `start`, when it lies
/// within the range. A span that only overlaps the range is no match.
pub fn nested_find(spans: &Vec<(usize, usize)>, start: usize, end: usize) -> (r: Option<usize>)
    requires
        spans_ok(spans@),
    ensures
        r matches Some(k) ==> first_after(spans@, start as int, k as int) && within(
            spans@,
            k as int,
            start as int,
            end as int,
        ),
        r is None ==> forall|k: int|
            first_after(spans@, start as int, k) ==> !within(spans@, k, start as int, end as int),
{
    let mut lo: usize = 0;
    let mut hi: usize = spans.len();
    while lo < hi
        invariant
            spans_ok(spans@),
            lo <= hi <= spans@.len(),
            forall|j: int| 0 <= j < lo ==> (#[trigger] spans@[j]).1 <= start,
            forall|j: int| hi <= j < spans@.len() ==> (#[trigger] spans@[j]).1 > start,
        decreases hi - lo,
    {
        let mid = lo + (hi - lo) / 2;
        if spans[mid].1 <= start {
            proof {
                assert forall|j: int| 0 <= j <= mid implies (#[trigger] spans@[j]).1 <= start by {
                    if j < mid {
                        assert(spans@[j].1 <= spans@[mid as int].0);
                    }
                }
            }
            lo = mid + 1;
        } else {
            hi = mid;
        }
    }
    if lo < spans.len() && start <= spans[lo].0 && spans[lo].0 < end && spans[lo].1 <= end {
        Some(lo)
    } else {
        proof {
            assert forall|k: int| first_after(spans@, start as int, k) implies !within(
                spans@,
                k,
                start as int,
                end as int,
            ) by {
                if k < lo {
                    assert(spans@[k].1 <= start);
                } else if k > lo {
                    assert(spans@[lo as int].1 > start);
                }
            }
        }
        None
    }
}

impl Tree {
    /// A tree over `text` with `nodes`, when they form a preorder layout
    /// whose byte ranges lie in the text.
    pub fn new(text: Vec<u8>, nodes: Vec<Node>) -> (r: Option<Tree>)
        ensures
            match r {
                Some(t) => t.wf() && t.text@ == text@ && t.nodes@ == nodes@,
                None => !layout_ok(text@, nodes@),
            },
    {
        if layout_check(&text, &nodes) {
            Some(Tree { text, nodes })
        } else {
            None
        }
    }
}

/// Whether `nodes` form a preorder layout over `text`.
fn layout_check(text: &Vec<u8>, nodes: &Vec<Node>) -> (r: bool)
    ensures
        r == layout_ok(text@, nodes@),
{
    let len = nodes.len();
    if len == 0 {
        return false;
    }
    let mut n: usize = 0;
    while n < len
        invariant
            len == nodes@.len(),
            n <= len,
            forall|m: int|
                0 <= m < n ==> {
                    &&& (#[trigger] nodes@[m]).size >= 1
                    &&& m + nodes@[m].size <= nodes@.len()
                    &&& nodes@[m].start <= nodes@[m].end <= text@.len()
                },
            forall|m: int|
                0 < m < n ==> {
                    &&& #[trigger] nodes@[m].parent < m
                    &&& m + nodes@[m].size <= nodes@[m].parent + nodes@[nodes@[m].parent as int].size
                },
        decreases len - n,
    {
        let node = nodes[n];
        if node.size < 1 || node.size > len - n || node.start > node.end || node.end > text.len() {
            return false;
        }
        if n > 0 {
            if node.parent >= n {
                return false;
            }
            let p = nodes[node.parent];
            if n + node.size > node.parent + p.size {
                return false;
            }
        }
        n = n + 1;
    }
    true
}

/// A tree parsed, under another grammar, from the byte range
/// `start .. end` of the same text as the tree it belongs to.
pub struct Nested {
    pub start: usize,
    pub end: usize,
    pub tree: Tree,
}

/// The byte ranges of `nested`.
pub open spec fn ranges_of(nested: Seq<Nested>) -> Seq<(usize, usize)> {
    nested.map_values(|e: Nested| (e.start, e.end))
}

/// Collects the byte ranges of `nested`, when they are sorted and disjoint.
fn spans_of(nested: &Vec<Nested>) -> (r: Option<Vec<(usize, usize)>>)
    ensures
        r matches Some(spans) ==> spans@ == ranges_of(nested@) && spans_ok(spans@),
        r is None ==> !spans_ok(ranges_of(nested@)),
{
    let mut spans: Vec<(usize, usize)> = Vec::new();
    let mut k: usize = 0;
    while k < nested.len()
        invariant
            k <= nested@.len(),
            spans@.len() == k,
            spans_ok(spans@),
            forall|m: int|
                0 <= m < k ==> (#[trigger] spans@[m]).0 == nested@[m].start && spans@[m].1
                    == nested@[m].end,
        decreases nested@.len() - k,
    {
        let e = &nested[k];
        if e.start > e.end {
            assert(ranges_of(nested@)[k as int] == (e.start, e.end));
            return None;
        }
        if k > 0 && nested[k - 1].end > e.start {
            assert(ranges_of(nested@)[k - 1] == (nested@[k - 1].start, nested@[k - 1].end));
            assert(ranges_of(nested@)[k as int] == (e.start, e.end));
            return None;
        }
        let ghost old_spans = spans@;
        spans.push((e.start, e.end));
        proof {
            assert forall|j: int, m: int| 0 <= j < m < spans@.len() implies (#[trigger] spans@[j]).1
                <= (#[trigger] spans@[m]).0 by {
                if m < k {
                    assert(spans@[j] == old_spans[j] && spans@[m] == old_spans[m]);
                } else if j < k - 1 {
                    assert(spans@[j] == old_spans[j]);
                    assert(old_spans[j].1 <= old_spans[k - 1].0);
                }
            }
            assert forall|m: int| 0 <= m < spans@.len() implies (#[trigger] spans@[m]).0 <= spans@[m].1 by {
                if m < k {
                    assert(spans@[m] == old_spans[m]);
                }
            }
        }
        k = k + 1;
    }
    assert(spans@ =~= ranges_of(nested@));
    Some(spans)
}

/// The span that `nested_find` locates for the byte range `start .. end`.
pub open spec fn locate(spans: Seq<(usize, usize)>, start: int, end: int) -> Option<int> {
    if exists|k: int| first_after(spans, start, k) {
        let k = choose|k: int| first_after(spans, start, k);
        if within(spans, k, start, end) {
            Some(k)
        } else {
            None
        }
    } else {
        None
    }
}

/// The nested tree that goes under node `n` of `outer`: the one located for
/// the node's byte range, when the node is a leaf.
pub open spec fn attached(outer: &Tree, nested: Seq<Nested>, n: int) -> Option<int> {
    if outer.is_leaf(n) {
        locate(ranges_of(nested), outer.nodes@[n].start as int, outer.nodes@[n].end as int)
    } else {
        None
    }
}

/// Number of nodes that the nested tree under node `n` adds.
pub open spec fn added(outer: &Tree, nested: Seq<Nested>, n: int) -> int {
    match attached(outer, nested, n) {
        Some(k) => nested[k].tree.nodes@.len() as int,
        None => 0,
    }
}

/// Number of nodes that nested trees add before outer node `i`.
pub open spec fn extra(outer: &Tree, nested: Seq<Nested>, i: int) -> int
    decreases i,
{
    if i <= 0 {
        0
    } else {
        extra(outer, nested, i - 1) + added(outer, nested, i - 1)
    }
}

/// Where outer node `n` stands in the composite.
pub open spec fn place(outer: &Tree, nested: Seq<Nested>, n: int) -> int {
    n + extra(outer, nested, n)
}

/// Outer node `n` as it stands in the composite: its parent moved to where
/// the parent stands, its size grown by the nested trees inside it.
pub open spec fn moved(outer: &Tree, nested: Seq<Nested>, n: int) -> Node {
    let x = outer.nodes@[n];
    Node {
        parent: if n == 0 {
            0usize
        } else {
            place(outer, nested, x.parent as int) as usize
        },
        size: (x.size + extra(outer, nested, n + x.size) - extra(outer, nested, n)) as usize,
        ..x
    }
}

/// The nodes of a nested tree placed right after the leaf at `at`: the root
/// a child of that leaf, every other parent shifted along.
pub open spec fn shifted(nodes: Seq<Node>, at: int) -> Seq<Node> {
    Seq::new(
        nodes.len(),
        |j: int|
            Node {
                parent: if j == 0 {
                    at as usize
                } else {
                    (at + 1 + nodes[j].parent) as usize
                },
                ..nodes[j]
            },
    )
}

/// The composite of the first `n` outer nodes: each in turn, followed by
/// the nested tree that goes under it, if any.
pub open spec fn composite(outer: &Tree, nested: Seq<Nested>, n: int) -> Seq<Node>
    decreases n,
{
    if n <= 0 {
        seq![]
    } else {
        let before = composite(outer, nested, n - 1).push(moved(outer, nested, n - 1));
        match attached(outer, nested, n - 1) {
            Some(k) => before + shifted(nested[k].tree.nodes@, place(outer, nested, n - 1)),
            None => before,
        }
    }
}

proof fn lemma_extra_mono(outer: &Tree, nested: Seq<Nested>, i: int, j: int)
    requires
        0 <= i <= j,
    ensures
        0 <= extra(outer, nested, i) <= extra(outer, nested, j),
    decreases j - i,
{
    if i < j {
        lemma_extra_mono(outer, nested, i, j - 1);
    } else {
        lemma_extra_nonneg(outer, nested, i);
    }
}

proof fn lemma_extra_nonneg(outer: &Tree, nested: Seq<Nested>, i: int)
    ensures
        0 <= extra(outer, nested, i),
    decreases i,
{
    if i > 0 {
        lemma_extra_nonneg(outer, nested, i - 1);
    }
}

proof fn lemma_locate(spans: Seq<(usize, usize)>, start: int, end: int, r: Option<usize>)
    requires
        r matches Some(k) ==> first_after(spans, start, k as int) && within(spans, k as int, start, end),
        r is None ==> forall|k: int| first_after(spans, start, k) ==> !within(spans, k, start, end),
    ensures
        locate(spans, start, end) == match r {
            Some(k) => Some(k as int),
            None => None::<int>,
        },
{
    if exists|k: int| first_after(spans, start, k) {
        let k = choose|k: int| first_after(spans, start, k);
        if let Some(k2) = r {
            if k < k2 {
                assert(spans[k].1 <= start);
            } else if k2 < k {
                assert(spans[k2 as int].1 <= start);
            }
        }
    }
}

proof fn lemma_attached_bound(outer: &Tree, nested: Seq<Nested>, n: int)
    ensures
        attached(outer, nested, n) matches Some(k) ==> 0 <= k < nested.len(),
{
    if attached(outer, nested, n) is Some {
        let spans = ranges_of(nested);
        let start = outer.nodes@[n].start as int;
        let k = choose|k: int| first_after(spans, start, k);
        assert(first_after(spans, start, k));
    }
}

proof fn lemma_composite_len(outer: &Tree, nested: Seq<Nested>, m: int)
    requires
        0 <= m,
    ensures
        composite(outer, nested, m).len() == place(outer, nested, m),
    decreases m,
{
    if m > 0 {
        lemma_composite_len(outer, nested, m - 1);
    }
}

proof fn lemma_composite_keeps(outer: &Tree, nested: Seq<Nested>, n: int, m: int, i: int)
    requires
        0 <= n < m,
        0 <= i < composite(outer, nested, n + 1).len(),
    ensures
        composite(outer, nested, m)[i] == composite(outer, nested, n + 1)[i],
    decreases m - n,
{
    if m > n + 1 {
        lemma_composite_keeps(outer, nested, n, m - 1, i);
        lemma_composite_len(outer, nested, m - 1);
        lemma_composite_len(outer, nested, n + 1);
        lemma_extra_mono(outer, nested, n + 1, m - 1);
    }
}

proof fn lemma_moved_at(outer: &Tree, nested: Seq<Nested>, p: int, m: int)
    requires
        0 <= p < m,
    ensures
        composite(outer, nested, m)[place(outer, nested, p)] == moved(outer, nested, p),
{
    lemma_composite_len(outer, nested, p);
    let d = composite(outer, nested, p + 1);
    let c = composite(outer, nested, p).push(moved(outer, nested, p));
    assert(d[place(outer, nested, p)] == c[place(outer, nested, p)]);
    lemma_extra_nonneg(outer, nested, p);
    lemma_composite_keeps(outer, nested, p, m, place(outer, nested, p));
}

/// The composite of the first `m` outer nodes is a well-formed prefix of a
/// layout of `total` nodes over the outer text.
spec fn prefix_ok(outer: &Tree, nested: Seq<Nested>, m: int, total: int) -> bool {
    let c = composite(outer, nested, m);
    &&& forall|i: int|
        0 <= i < c.len() ==> {
            &&& (#[trigger] c[i]).size >= 1
            &&& i + c[i].size <= total
            &&& c[i].start <= c[i].end <= outer.text@.len()
        }
    &&& forall|i: int|
        0 < i < c.len() ==> {
            &&& #[trigger] c[i].parent < i
            &&& i + c[i].size <= c[i].parent + c[c[i].parent as int].size
        }
}

/// The trees `nest` is given are well-formed, over one text, with sorted
/// and disjoint ranges, and their composite fits.
pub open spec fn nest_ok(outer: &Tree, nested: Seq<Nested>) -> bool {
    &&& outer.wf()
    &&& forall|k: int|
        0 <= k < nested.len() ==> (#[trigger] nested[k]).tree.wf() && nested[k].tree.text@
            == outer.text@
    &&& spans_ok(ranges_of(nested))
    &&& outer.nodes@.len() + extra(outer, nested, outer.nodes@.len() as int) <= usize::MAX
}

proof fn lemma_step_node(outer: &Tree, nested: Seq<Nested>, m: int, total: int)
    requires
        nest_ok(outer, nested),
        0 <= m < outer.nodes@.len(),
        total == place(outer, nested, outer.nodes@.len() as int),
    ensures
        ({
            let x = outer.nodes@[m];
            let here = place(outer, nested, m);
            let mv = moved(outer, nested, m);
            let c = composite(outer, nested, m);
            &&& mv.size >= 1
            &&& here + mv.size <= total
            &&& place(outer, nested, m + 1) <= here + mv.size
            &&& mv.start <= mv.end <= outer.text@.len()
            &&& m > 0 ==> mv.parent < here && c[mv.parent as int] == moved(
                outer,
                nested,
                x.parent as int,
            ) && here + mv.size <= mv.parent + c[mv.parent as int].size
        }),
{
    let len = outer.nodes@.len() as int;
    let x = outer.nodes@[m];
    let here = place(outer, nested, m);
    let mv = moved(outer, nested, m);
    assert(x.size >= 1 && m + x.size <= len && x.start <= x.end <= outer.text@.len());
    lemma_extra_mono(outer, nested, m, m + x.size);
    lemma_extra_mono(outer, nested, m + x.size, len);
    lemma_extra_mono(outer, nested, m + 1, m + x.size);
    lemma_extra_mono(outer, nested, m, m + 1);
    let sz = x.size + extra(outer, nested, m + x.size) - extra(outer, nested, m);
    assert(1 <= sz <= usize::MAX);
    assert(mv.size == sz);
    if m > 0 {
        let p = x.parent as int;
        assert(p < m && m + x.size <= p + outer.nodes@[p].size);
        lemma_extra_mono(outer, nested, p, m);
        lemma_extra_mono(outer, nested, m + x.size, p + outer.nodes@[p].size);
        lemma_extra_mono(outer, nested, p, p + outer.nodes@[p].size);
        lemma_extra_mono(outer, nested, p + outer.nodes@[p].size, len);
        let pp = place(outer, nested, p);
        assert(0 <= pp < here);
        assert(mv.parent == pp);
        lemma_moved_at(outer, nested, p, m);
        let mp = moved(outer, nested, p);
        assert(mp.size == outer.nodes@[p].size + extra(outer, nested, p + outer.nodes@[p].size) - extra(
            outer,
            nested,
            p,
        ));
    }
}

#[verifier::rlimit(100)]
proof fn lemma_step_plain(outer: &Tree, nested: Seq<Nested>, m: int, total: int)
    requires
        nest_ok(outer, nested),
        0 <= m < outer.nodes@.len(),
        total == place(outer, nested, outer.nodes@.len() as int),
        prefix_ok(outer, nested, m, total),
        attached(outer, nested, m) is None,
    ensures
        prefix_ok(outer, nested, m + 1, total),
{
    let c = composite(outer, nested, m);
    let here = place(outer, nested, m);
    let mv = moved(outer, nested, m);
    lemma_step_node(outer, nested, m, total);
    lemma_composite_len(outer, nested, m);
    let d = composite(outer, nested, m + 1);
    assert(d == c.push(mv));
    assert forall|i: int| 0 <= i < d.len() implies {
        &&& (#[trigger] d[i]).size >= 1
        &&& i + d[i].size <= total
        &&& d[i].start <= d[i].end <= outer.text@.len()
    } by {
        if i < here {
            assert(d[i] == c[i]);
        }
    }
    assert forall|i: int| 0 < i < d.len() implies {
        &&& #[trigger] d[i].parent < i
        &&& i + d[i].size <= d[i].parent + d[d[i].parent as int].size
    } by {
        if i < here {
            assert(d[i] == c[i]);
            assert(d[c[i].parent as int] == c[c[i].parent as int]);
        } else {
            assert(d[mv.parent as int] == c[mv.parent as int]);
        }
    }
}

#[verifier::rlimit(100)]
proof fn lemma_step_nested(outer: &Tree, nested: Seq<Nested>, m: int, k: int, total: int)
    requires
        nest_ok(outer, nested),
        0 <= m < outer.nodes@.len(),
        total == place(outer, nested, outer.nodes@.len() as int),
        prefix_ok(outer, nested, m, total),
        attached(outer, nested, m) == Some(k),
        0 <= k < nested.len(),
    ensures
        prefix_ok(outer, nested, m + 1, total),
{
    let c = composite(outer, nested, m);
    let here = place(outer, nested, m);
    let mv = moved(outer, nested, m);
    lemma_step_node(outer, nested, m, total);
    lemma_composite_len(outer, nested, m);
    let sub = nested[k].tree.nodes@;
    let sh = shifted(sub, here);
    assert(nested[k].tree.wf() && nested[k].tree.text@ == outer.text@);
    let d = composite(outer, nested, m + 1);
    assert(d == c.push(mv) + sh);
    assert(place(outer, nested, m + 1) == here + 1 + sub.len());
    assert forall|i: int| 0 <= i < d.len() implies {
        &&& (#[trigger] d[i]).size >= 1
        &&& i + d[i].size <= total
        &&& d[i].start <= d[i].end <= outer.text@.len()
    } by {
        if i < here {
            assert(d[i] == c[i]);
        } else if i > here {
            let j = i - here - 1;
            assert(d[i] == sh[j]);
            assert(sub[j].size >= 1 && j + sub[j].size <= sub.len());
        }
    }
    assert forall|i: int| 0 < i < d.len() implies {
        &&& #[trigger] d[i].parent < i
        &&& i + d[i].size <= d[i].parent + d[d[i].parent as int].size
    } by {
        if i < here {
            assert(d[i] == c[i]);
            assert(d[c[i].parent as int] == c[c[i].parent as int]);
        } else if i == here {
            assert(d[mv.parent as int] == c[mv.parent as int]);
        } else {
            let j = i - here - 1;
            assert(d[i] == sh[j]);
            if j == 0 {
                assert(d[here] == mv);
            } else {
                let q = sub[j].parent as int;
                assert(q < j && j + sub[j].size <= q + sub[q].size);
                assert(d[here + 1 + q] == sh[q]);
            }
        }
    }
}

proof fn lemma_prefix_upto(outer: &Tree, nested: Seq<Nested>, m: int, total: int)
    requires
        nest_ok(outer, nested),
        0 <= m <= outer.nodes@.len(),
        total == place(outer, nested, outer.nodes@.len() as int),
    ensures
        prefix_ok(outer, nested, m, total),
    decreases m,
{
    if m > 0 {
        lemma_prefix_upto(outer, nested, m - 1, total);
        lemma_attached_bound(outer, nested, m - 1);
        match attached(outer, nested, m - 1) {
            Some(k) => lemma_step_nested(outer, nested, m - 1, k, total),
            None => lemma_step_plain(outer, nested, m - 1, total),
        }
    }
}

/// Well-formed trees over one text, with sorted and disjoint ranges, whose
/// composite fits, always have a composite that is a preorder layout.
pub proof fn lemma_composite_ok(outer: &Tree, nested: Seq<Nested>)
    requires
        nest_ok(outer, nested),
    ensures
        layout_ok(outer.text@, composite(outer, nested, outer.nodes@.len() as int)),
{
    let len = outer.nodes@.len() as int;
    lemma_prefix_upto(outer, nested, len, place(outer, nested, len));
    lemma_composite_len(outer, nested, len);
    lemma_extra_nonneg(outer, nested, len);
}

/// In the composite, an outer leaf that a nested tree is located for keeps
/// its place and byte range, and the nested tree's root comes right after
/// it, as its child, with the root's own kind and byte range: a cursor on
/// the leaf crosses into the nested tree by a first-child move.
pub proof fn lemma_nested_under_leaf(outer: &Tree, nested: Seq<Nested>, n: int)
    requires
        0 <= n < outer.nodes@.len(),
        attached(outer, nested, n) is Some,
        nested[attached(outer, nested, n)->0].tree.nodes@.len() > 0,
        outer.nodes@.len() + extra(outer, nested, outer.nodes@.len() as int) <= usize::MAX,
    ensures
        ({
            let c = composite(outer, nested, outer.nodes@.len() as int);
            let at = place(outer, nested, n);
            let root = nested[attached(outer, nested, n)->0].tree.nodes@[0];
            &&& at + 1 < c.len()
            &&& c[at].start == outer.nodes@[n].start
            &&& c[at].end == outer.nodes@[n].end
            &&& c[at + 1].parent == at
            &&& c[at + 1].kind == root.kind
            &&& c[at + 1].start == root.start
            &&& c[at + 1].end == root.end
        }),
{
    let len = outer.nodes@.len() as int;
    let k = attached(outer, nested, n)->0;
    let at = place(outer, nested, n);
    lemma_composite_len(outer, nested, n);
    lemma_composite_len(outer, nested, n + 1);
    lemma_composite_len(outer, nested, len);
    lemma_extra_mono(outer, nested, n + 1, len);
    lemma_extra_mono(outer, nested, n, n + 1);
    assert(extra(outer, nested, n + 1) == extra(outer, nested, n) + nested[k].tree.nodes@.len());
    assert(at + 1 < place(outer, nested, n + 1) <= place(outer, nested, len));
    let d = composite(outer, nested, n + 1);
    let sh = shifted(nested[k].tree.nodes@, at);
    assert(d == composite(outer, nested, n).push(moved(outer, nested, n)) + sh);
    assert(d[at] == moved(outer, nested, n));
    assert(d[at + 1] == sh[0]);
    lemma_composite_keeps(outer, nested, n, len, at);
    lemma_composite_keeps(outer, nested, n, len, at + 1);
    lemma_extra_nonneg(outer, nested, n);
}

impl Tree {
    /// The composite of `outer` and the trees parsed for some of its leaves:
    /// the tree whose byte range `nested_find` locates for a leaf goes right
    /// after that leaf, its root a child of the leaf, so that a cursor
    /// crosses into it by a first-child move and back out by a parent move.
    /// There is a result whenever the trees given are well-formed, over one
    /// text, with sorted and disjoint ranges, and the composite fits; there
    /// is none when a tree is not well-formed, the ranges are not sorted and
    /// disjoint, the composite would not fit, or it is no preorder layout
    /// over the outer text.
    pub fn nest(outer: Tree, nested: Vec<Nested>) -> (r: Option<Tree>)
        ensures
            r matches Some(t) ==> {
                &&& t.wf()
                &&& t.text@ == outer.text@
                &&& t.nodes@ == composite(&outer, nested@, outer.nodes@.len() as int)
            },
            r is None ==> {
                ||| !outer.wf()
                ||| exists|k: int| 0 <= k < nested@.len() && !(#[trigger] nested@[k]).tree.wf()
                ||| !spans_ok(ranges_of(nested@))
                ||| outer.nodes@.len() + extra(&outer, nested@, outer.nodes@.len() as int) > usize::MAX
                ||| !layout_ok(outer.text@, composite(&outer, nested@, outer.nodes@.len() as int))
            },
            nest_ok(&outer, nested@) ==> r is Some,
    {
        let ghost ns = nested@;
        if !layout_check(&outer.text, &outer.nodes) {
            return None;
        }
        let mut k: usize = 0;
        while k < nested.len()
            invariant
                k <= nested@.len(),
                forall|m: int| 0 <= m < k ==> (#[trigger] nested@[m]).tree.wf(),
            decreases nested@.len() - k,
        {
            if !layout_check(&nested[k].tree.text, &nested[k].tree.nodes) {
                return None;
            }
            k = k + 1;
        }
        let spans = match spans_of(&nested) {
            Some(s) => s,
            None => {
                return None;
            },
        };
        let len = outer.nodes.len();
        // which nested tree goes under each outer node, and how many nodes
        // nested trees add before it
        let mut att: Vec<Option<usize>> = Vec::new();
        let mut extras: Vec<usize> = Vec::new();
        extras.push(0);
        let mut n: usize = 0;
        while n < len
            invariant
                outer.wf(),
                len == outer.nodes@.len(),
                n <= len,
                spans@ == ranges_of(ns),
                spans_ok(spans@),
                ns == nested@,
                att@.len() == n,
                extras@.len() == n + 1,
                forall|m: int|
                    0 <= m < n ==> #[trigger] att@[m] == match attached(&outer, ns, m) {
                        Some(k) => Some(k as usize),
                        None => None::<usize>,
                    },
                forall|m: int| 0 <= m <= n ==> #[trigger] extras@[m] == extra(&outer, ns, m),
                forall|m: int| 0 <= m < n ==> (#[trigger] att@[m] matches Some(k) ==> k < ns.len()),
            decreases len - n,
        {
            let node = outer.nodes[n];
            let a = if outer.leaf_at(n) {
                let found = nested_find(&spans, node.start, node.end);
                proof {
                    lemma_locate(spans@, node.start as int, node.end as int, found);
                }
                found
            } else {
                None
            };
            let add = match a {
                Some(k) => nested[k].tree.nodes.len(),
                None => 0,
            };
            let e = match extras[n].checked_add(add) {
                Some(e) => e,
                None => {
                    proof {
                        lemma_extra_mono(&outer, ns, n as int + 1, len as int);
                    }
                    return None;
                },
            };
            att.push(a);
            extras.push(e);
            n = n + 1;
        }
        if extras[len] > usize::MAX - len {
            return None;
        }
        let total = len + extras[len];
        let mut out: Vec<Node> = Vec::new();
        let mut n: usize = 0;
        while n < len
            invariant
                outer.wf(),
                forall|m: int| 0 <= m < ns.len() ==> (#[trigger] ns[m]).tree.wf(),
                ns == nested@,
                len == outer.nodes@.len(),
                n <= len,
                att@.len() == len,
                extras@.len() == len + 1,
                total == len + extras@[len as int],
                forall|m: int|
                    0 <= m < len ==> #[trigger] att@[m] == match attached(&outer, ns, m) {
                        Some(k) => Some(k as usize),
                        None => None::<usize>,
                    },
                forall|m: int| 0 <= m <= len ==> #[trigger] extras@[m] == extra(&outer, ns, m),
                forall|m: int| 0 <= m < len ==> (#[trigger] att@[m] matches Some(k) ==> k < ns.len()),
                out@ == composite(&outer, ns, n as int),
                out@.len() == place(&outer, ns, n as int),
            decreases len - n,
        {
            let node = outer.nodes[n];
            proof {
                lemma_extra_mono(&outer, ns, n as int, n + node.size);
                lemma_extra_mono(&outer, ns, n + node.size, len as int);
                lemma_extra_mono(&outer, ns, n as int + 1, len as int);
                if n > 0 {
                    lemma_extra_mono(&outer, ns, node.parent as int, n as int);
                }
            }
            let here = n + extras[n];
            let parent = if n == 0 {
                0
            } else {
                node.parent + extras[node.parent]
            };
            let size = node.size + (extras[n + node.size] - extras[n]);
            let ghost before = out@;
            out.push(Node { parent, size, ..node });
            assert(out@ == before.push(moved(&outer, ns, n as int)));
            match att[n] {
                Some(k) => {
                    let sub = &nested[k].tree.nodes;
                    let ghost base = out@;
                    proof {
                        lemma_attached_bound(&outer, ns, n as int);
                    }
                    assert(attached(&outer, ns, n as int) == Some(k as int));
                    assert(added(&outer, ns, n as int) == sub@.len());
                    assert(extras@[n + 1] == extras@[n as int] + sub@.len());
                    let mut j: usize = 0;
                    while j < sub.len()
                        invariant
                            sub@ == ns[k as int].tree.nodes@,
                            ns[k as int].tree.wf(),
                            j <= sub@.len(),
                            here + 1 + sub@.len() <= total,
                            out@ == base + shifted(sub@, here as int).subrange(0, j as int),
                        decreases sub@.len() - j,
                    {
                        let x = sub[j];
                        let p = if j == 0 {
                            here
                        } else {
                            here + 1 + x.parent
                        };
                        out.push(Node { parent: p, ..x });
                        j = j + 1;
                        assert(out@ =~= base + shifted(sub@, here as int).subrange(0, j as int));
                    }
                    assert(shifted(sub@, here as int).subrange(0, j as int) =~= shifted(
                        sub@,
                        here as int,
                    ));
                },
                None => {},
            }
            n = n + 1;
        }
        proof {
            if nest_ok(&outer, ns) {
                lemma_composite_ok(&outer, ns);
            }
        }
        Tree::new(outer.text, out)
    }
}

/// Number of nodes on the way from the root down to node `n`, both
/// included.
pub open spec fn depth(t: &Tree, n: int) -> int
    decreases n,
{
    if n <= 0 || n >= t.nodes@.len() || t.nodes@[n].parent >= n {
        1
    } else {
        depth(t, t.nodes@[n].parent as int) + 1
    }
}

proof fn lemma_depth_bound(t: &Tree, n: int)
    requires
        0 <= n,
    ensures
        1 <= depth(t, n) <= n + 1,
    decreases n,
{
    if n > 0 && n < t.nodes@.len() && t.nodes@[n].parent < n {
        lemma_depth_bound(t, t.nodes@[n].parent as int);
    }
}

impl Tree {
    /// The number of nodes, and the greatest depth of a node.
    pub fn dim(&self) -> (r: (usize, usize))
        requires
            self.wf(),
        ensures
            r.0 == self.nodes@.len(),
            forall|n: int| 0 <= n < self.nodes@.len() ==> depth(self, n) <= r.1,
            exists|n: int| 0 <= n < self.nodes@.len() && depth(self, n) == r.1,
    {
        let len = self.nodes.len();
        let mut depths: Vec<usize> = Vec::new();
        depths.push(1);
        let mut deepest: usize = 1;
        let ghost mut at: int = 0;
        let mut n: usize = 1;
        while n < len
            invariant
                self.wf(),
                len == self.nodes@.len(),
                1 <= n <= len,
                depths@.len() == n,
                forall|m: int| 0 <= m < n ==> #[trigger] depths@[m] == depth(self, m),
                forall|m: int| 0 <= m < n ==> depth(self, m) <= deepest,
                0 <= at < n,
                depth(self, at) == deepest,
            decreases len - n,
        {
            let p = self.nodes[n].parent;
            proof {
                lemma_depth_bound(self, n as int);
            }
            let d = depths[p] + 1;
            depths.push(d);
            if d > deepest {
                deepest = d;
                proof {
                    at = n as int;
                }
            }
            n = n + 1;
        }
        (len, deepest)
    }
}

/// The leaves among the first `n` nodes, in document order.
pub open spec fn leaves_of(t: &Tree, n: int) -> Seq<usize>
    decreases n,
{
    if n <= 0 {
        seq![]
    } else if t.is_leaf(n - 1) {
        leaves_of(t, n - 1).push((n - 1) as usize)
    } else {
        leaves_of(t, n - 1)
    }
}

impl Tree {
    /// The indices of the leaves, in document order.
    pub fn leaves(&self) -> (r: Vec<usize>)
        ensures
            r@ == leaves_of(self, self.nodes@.len() as int),
    {
        let mut r: Vec<usize> = Vec::new();
        let mut n: usize = 0;
        while n < self.nodes.len()
            invariant
                n <= self.nodes@.len(),
                r@ == leaves_of(self, n as int),
            decreases self.nodes@.len() - n,
        {
            if self.leaf_at(n) {
                r.push(n);
            }
            n = n + 1;
        }
        r
    }
}

} // verus!
