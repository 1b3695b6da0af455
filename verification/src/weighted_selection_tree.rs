use vstd::prelude::*;

verus! {

/// One slot of the selection tree: an item (a key with its weight) and the
/// exact sum of weights over the slot's subtree in the implicit binary-heap
/// layout (children of slot i sit at slots 2i+1 and 2i+2).
#[derive(Clone, Copy)]
pub struct Node {
    pub key: usize,
    pub weight: u64,
    pub total: u64,
}

/// The weights of a node sequence.
pub open spec fn node_weights(s: Seq<Node>) -> Seq<u64> {
    s.map_values(|n: Node| n.weight)
}

/// Sum of the weights in the subtree rooted at slot `i` of the implicit heap
/// over the weight sequence `ws`.
pub open spec fn tree_sum(ws: Seq<u64>, i: int) -> nat
    decreases 2 * ws.len() - i,
{
    if i < 0 || i >= ws.len() {
        0
    } else {
        (ws[i] + tree_sum(ws, 2 * i + 1) + tree_sum(ws, 2 * i + 2)) as nat
    }
}

/// Plain sum of a weight sequence.
pub open spec fn seq_sum(ws: Seq<u64>) -> nat
    decreases ws.len(),
{
    if ws.len() == 0 {
        0
    } else {
        (seq_sum(ws.drop_last()) + ws.last()) as nat
    }
}

/// Whether slot `j` lies in the subtree rooted at slot `i` (both are plain
/// heap indices; membership does not depend on the tree's length).
pub open spec fn in_subtree(i: int, j: int) -> bool
    decreases j,
{
    if j == i {
        true
    } else if j <= i || j <= 0 {
        false
    } else {
        in_subtree(i, (j - 1) / 2)
    }
}

/// Membership in a child's subtree lifts to the parent's subtree.
pub proof fn lemma_subtree_step(i: int, c: int, j: int)
    requires
        i >= 0,
        c == 2 * i + 1 || c == 2 * i + 2,
        in_subtree(c, j),
    ensures
        in_subtree(i, j),
    decreases j,
{
    if j == c {
        assert((j - 1) / 2 == i);
        assert(in_subtree(i, i));
        assert(in_subtree(i, j));
    } else {
        assert(j > c && j > 0);
        lemma_subtree_step(i, c, (j - 1) / 2);
        assert(in_subtree(i, (j - 1) / 2));
        assert(j > i);
        assert(in_subtree(i, j));
    }
}

/// A child slot's parent index.
pub proof fn lemma_parent_of_child(p: int, c: int)
    requires
        p >= 0,
        c == 2 * p + 1 || c == 2 * p + 2,
    ensures
        (c - 1) / 2 == p,
{
    assert((c - 1) / 2 == p) by (nonlinear_arith)
        requires
            p >= 0,
            c == 2 * p + 1 || c == 2 * p + 2,
    ;
}

/// A slot is not inside its sibling's subtree.
pub proof fn lemma_sibling_not_subtree(p: int, a: int, b: int)
    requires
        p >= 0,
        a == 2 * p + 1 || a == 2 * p + 2,
        b == 2 * p + 1 || b == 2 * p + 2,
        a != b,
    ensures
        !in_subtree(a, b),
{
    if b > a {
        lemma_parent_of_child(p, b);
        assert(in_subtree(a, b) == in_subtree(a, p));
        assert(!in_subtree(a, p));
    }
}

/// Walking one step up: a strict subtree member of a child slot is a subtree
/// member of the parent slot.
pub proof fn lemma_subtree_to_parent(p: int, c: int, j: int)
    requires
        p >= 0,
        c == 2 * p + 1 || c == 2 * p + 2,
        in_subtree(j, c),
        j != c,
    ensures
        in_subtree(j, p),
{
    lemma_parent_of_child(p, c);
    assert(c > 0);
    assert(in_subtree(j, c) == if c == j {
        true
    } else if c <= j || c <= 0 {
        false
    } else {
        in_subtree(j, (c - 1) / 2)
    });
}

/// Subtree sums only read the weights of subtree members: two weight
/// sequences that agree there give the same sum.
pub proof fn lemma_tree_sum_frame(ws1: Seq<u64>, ws2: Seq<u64>, i: int)
    requires
        forall|j: int|
            #[trigger] in_subtree(i, j) && (0 <= j < ws1.len() || 0 <= j < ws2.len()) ==> 0 <= j
                < ws1.len() && 0 <= j < ws2.len() && ws1[j] == ws2[j],
    ensures
        tree_sum(ws1, i) == tree_sum(ws2, i),
    decreases 2 * ws1.len() + 2 * ws2.len() - i,
{
    if i < 0 {
        assert(in_subtree(i, 0) == (i == 0));
        if i >= ws1.len() && i >= ws2.len() {
        }
        assert(tree_sum(ws1, i) == 0);
        assert(tree_sum(ws2, i) == 0);
    } else {
        assert(in_subtree(i, i));
        if i >= ws1.len() && i >= ws2.len() {
        } else {
            assert forall|j: int|
                #[trigger] in_subtree(2 * i + 1, j) && (0 <= j < ws1.len() || 0 <= j
                    < ws2.len()) implies 0 <= j < ws1.len() && 0 <= j < ws2.len() && ws1[j]
                == ws2[j] by {
                lemma_subtree_step(i, 2 * i + 1, j);
            }
            assert forall|j: int|
                #[trigger] in_subtree(2 * i + 2, j) && (0 <= j < ws1.len() || 0 <= j
                    < ws2.len()) implies 0 <= j < ws1.len() && 0 <= j < ws2.len() && ws1[j]
                == ws2[j] by {
                lemma_subtree_step(i, 2 * i + 2, j);
            }
            lemma_tree_sum_frame(ws1, ws2, 2 * i + 1);
            lemma_tree_sum_frame(ws1, ws2, 2 * i + 2);
        }
    }
}

/// The subtree sum at a child is at most the subtree sum at the parent.
pub proof fn lemma_tree_sum_child(ws: Seq<u64>, i: int, c: int)
    requires
        0 <= i,
        c == 2 * i + 1 || c == 2 * i + 2,
    ensures
        tree_sum(ws, c) <= tree_sum(ws, i),
{
    if i >= ws.len() {
        assert(tree_sum(ws, c) == 0);
    }
}

/// Every subtree sum is bounded by the sum at the root.
pub proof fn lemma_tree_sum_le_root(ws: Seq<u64>, j: int)
    requires
        j >= 0,
    ensures
        tree_sum(ws, j) <= tree_sum(ws, 0),
    decreases j,
{
    if j > 0 {
        let p = (j - 1) / 2;
        lemma_tree_sum_child(ws, p, j);
        lemma_tree_sum_le_root(ws, p);
    }
}

/// Sum of subtree sums over the slot range [lo, hi).
pub open spec fn seg_sum(ws: Seq<u64>, lo: int, hi: int) -> nat
    decreases hi - lo,
{
    if lo >= hi {
        0
    } else {
        tree_sum(ws, lo) + seg_sum(ws, lo + 1, hi)
    }
}

/// Plain sum of the weights over the index range [lo, hi), clipped to the
/// sequence.
pub open spec fn wseg_sum(ws: Seq<u64>, lo: int, hi: int) -> nat
    decreases hi - lo,
{
    if lo >= hi {
        0
    } else {
        (if 0 <= lo < ws.len() {
            ws[lo] as nat
        } else {
            0
        }) + wseg_sum(ws, lo + 1, hi)
    }
}

proof fn lemma_wseg_concat(ws: Seq<u64>, lo: int, mid: int, hi: int)
    requires
        lo <= mid <= hi,
    ensures
        wseg_sum(ws, lo, hi) == wseg_sum(ws, lo, mid) + wseg_sum(ws, mid, hi),
    decreases mid - lo,
{
    if lo < mid {
        lemma_wseg_concat(ws, lo + 1, mid, hi);
    }
}

proof fn lemma_wseg_clip(ws: Seq<u64>, lo: int, hi: int)
    requires
        lo >= ws.len(),
    ensures
        wseg_sum(ws, lo, hi) == 0,
    decreases hi - lo,
{
    if lo < hi {
        lemma_wseg_clip(ws, lo + 1, hi);
    }
}

/// A row of subtree sums splits into that row's own weights plus the next
/// row of subtree sums.
proof fn lemma_seg_unfold(ws: Seq<u64>, lo: int, hi: int)
    requires
        0 <= lo <= hi,
    ensures
        seg_sum(ws, lo, hi) == wseg_sum(ws, lo, hi) + seg_sum(ws, 2 * lo + 1, 2 * hi + 1),
    decreases hi - lo,
{
    if lo >= hi {
    } else {
        lemma_seg_unfold(ws, lo + 1, hi);
        // tree_sum(lo) == ws[lo] + tree_sum(2lo+1) + tree_sum(2lo+2)
        // and seg_sum(2lo+1, 2hi+1) == tree_sum(2lo+1) + tree_sum(2lo+2) + seg_sum(2lo+3, 2hi+1)
        assert(seg_sum(ws, 2 * lo + 1, 2 * hi + 1) == tree_sum(ws, 2 * lo + 1) + seg_sum(
            ws,
            2 * lo + 2,
            2 * hi + 1,
        ));
        assert(seg_sum(ws, 2 * lo + 2, 2 * hi + 1) == tree_sum(ws, 2 * lo + 2) + seg_sum(
            ws,
            2 * (lo + 1) + 1,
            2 * hi + 1,
        ));
        if lo >= ws.len() {
            assert(tree_sum(ws, lo) == 0);
        }
    }
}

/// A full row's subtree sums cover every weight from the row on.
proof fn lemma_row_total(ws: Seq<u64>, lo: int)
    requires
        0 <= lo,
    ensures
        seg_sum(ws, lo, 2 * lo + 1) == wseg_sum(ws, lo, ws.len() as int),
    decreases 2 * ws.len() - lo,
{
    if lo >= ws.len() {
        lemma_seg_empty(ws, lo, 2 * lo + 1);
        lemma_wseg_clip(ws, lo, ws.len() as int);
    } else {
        let n = ws.len() as int;
        lemma_seg_unfold(ws, lo, 2 * lo + 1);
        lemma_row_total(ws, 2 * lo + 1);
        if 2 * lo + 1 <= n {
            lemma_wseg_concat(ws, lo, 2 * lo + 1, n);
        } else {
            lemma_wseg_concat(ws, lo, n, 2 * lo + 1);
            lemma_wseg_clip(ws, n, 2 * lo + 1);
        }
    }
}

proof fn lemma_seg_empty(ws: Seq<u64>, lo: int, hi: int)
    requires
        lo >= ws.len(),
    ensures
        seg_sum(ws, lo, hi) == 0,
    decreases hi - lo,
{
    if lo < hi {
        lemma_seg_empty(ws, lo + 1, hi);
        lemma_tree_sum_zero(ws, lo);
    }
}

proof fn lemma_tree_sum_zero(ws: Seq<u64>, i: int)
    requires
        i >= ws.len() || i < 0,
    ensures
        tree_sum(ws, i) == 0,
{
}

proof fn lemma_wseg_is_seq_sum(ws: Seq<u64>, hi: int)
    requires
        hi == ws.len(),
    ensures
        wseg_sum(ws, 0, hi) == seq_sum(ws),
    decreases hi,
{
    if hi > 0 {
        lemma_wseg_is_seq_sum(ws.drop_last(), hi - 1);
        lemma_wseg_agree(ws.drop_last(), ws, 0, hi - 1);
        lemma_wseg_last(ws, 0, hi);
    }
}

proof fn lemma_wseg_agree(ws1: Seq<u64>, ws2: Seq<u64>, lo: int, hi: int)
    requires
        hi <= ws1.len(),
        hi <= ws2.len(),
        forall|j: int| lo <= j < hi ==> 0 <= j && ws1[j] == ws2[j],
    ensures
        wseg_sum(ws1, lo, hi) == wseg_sum(ws2, lo, hi),
    decreases hi - lo,
{
    if lo < hi {
        assert(ws1[lo] == ws2[lo]);
        lemma_wseg_agree(ws1, ws2, lo + 1, hi);
    }
}

proof fn lemma_wseg_last(ws: Seq<u64>, lo: int, hi: int)
    requires
        0 <= lo < hi <= ws.len(),
    ensures
        wseg_sum(ws, lo, hi) == wseg_sum(ws, lo, hi - 1) + ws[hi - 1],
    decreases hi - lo,
{
    if lo < hi - 1 {
        lemma_wseg_last(ws, lo + 1, hi);
    } else {
        assert(wseg_sum(ws, hi, hi) == 0);
        assert(wseg_sum(ws, lo, hi - 1) == 0);
        assert(wseg_sum(ws, lo, hi) == ws[lo] + wseg_sum(ws, lo + 1, hi));
    }
}

/// The root's subtree sum is the sum of all weights.
pub proof fn lemma_tree_sum_is_seq_sum(ws: Seq<u64>)
    ensures
        tree_sum(ws, 0) == seq_sum(ws),
{
    lemma_row_total(ws, 0);
    lemma_wseg_is_seq_sum(ws, ws.len() as int);
    assert(seg_sum(ws, 1, 1) == 0);
    assert(seg_sum(ws, 0, 1) == tree_sum(ws, 0) + seg_sum(ws, 1, 1));
    if ws.len() == 0 {
        lemma_tree_sum_zero(ws, 0);
    }
}


/// The slot that the weighted descent selects for draw value `x`: starting at
/// slot `i`, stop when `x` is at most the slot's own weight or the slot has no
/// left child; otherwise subtract the weight and descend left when `x` fits
/// under the left subtree's sum or there is no right child, else subtract that
/// sum as well and descend right.
pub open spec fn spec_find(ws: Seq<u64>, x: int, i: int) -> int
    decreases 2 * ws.len() - i,
{
    if i < 0 || i >= ws.len() {
        i
    } else {
        let l = 2 * i + 1;
        let r = 2 * i + 2;
        if x <= ws[i] || l >= ws.len() {
            i
        } else {
            let x1 = x - ws[i];
            if x1 <= tree_sum(ws, l) || r >= ws.len() {
                spec_find(ws, x1, l)
            } else {
                spec_find(ws, x1 - tree_sum(ws, l), r)
            }
        }
    }
}

proof fn lemma_seq_sum_push(ws: Seq<u64>, w: u64)
    ensures
        seq_sum(ws.push(w)) == seq_sum(ws) + w,
{
    assert(ws.push(w).drop_last() =~= ws);
}

proof fn lemma_seq_sum_update(ws: Seq<u64>, i: int, w: u64)
    requires
        0 <= i < ws.len(),
    ensures
        seq_sum(ws.update(i, w)) + ws[i] == seq_sum(ws) + w,
    decreases ws.len(),
{
    if i == ws.len() - 1 {
        assert(ws.update(i, w).drop_last() =~= ws.drop_last());
    } else {
        assert(ws.update(i, w).drop_last() =~= ws.drop_last().update(i, w));
        lemma_seq_sum_update(ws.drop_last(), i, w);
    }
}

/// The largest node count the tree accepts, so that child slot arithmetic
/// cannot overflow a usize.
pub const MAX_NODES: usize = 0x4000_0000;

/// Totals are exact everywhere except possibly on the ancestors of slot `ex`.
pub open spec fn totals_ok_except(s: Seq<Node>, ex: int) -> bool {
    forall|j: int|
        0 <= j < s.len() && !in_subtree(j, ex) ==> (#[trigger] s[j]).total == tree_sum(
            node_weights(s),
            j,
        )
}

/// A weighted set of keys with O(log n) draw-by-weight and removal.
///
/// Nodes sit in a contiguous array in binary-heap layout; each node carries
/// the exact sum of the weights in its subtree. A dense side table maps each
/// key of the key space to the slot that holds it.
pub struct WeightedSelectionTree {
    nodes: Vec<Node>,
    keys: Vec<Option<usize>>,
}

impl WeightedSelectionTree {
    /// The weights in slot order.
    pub closed spec fn ws(self) -> Seq<u64> {
        node_weights(self.nodes@)
    }

    /// Size of the dense key space.
    pub closed spec fn spec_key_space(self) -> int {
        self.keys@.len() as int
    }

    pub closed spec fn spec_len(self) -> nat {
        self.nodes@.len()
    }

    /// Exact sum of all contained weights.
    pub closed spec fn total_weight(self) -> nat {
        tree_sum(self.ws(), 0)
    }

    /// The contained items: a map from key to weight.
    pub closed spec fn contents(self) -> Map<usize, u64> {
        Map::new(
            |k: usize| k < self.keys@.len() && self.keys@[k as int] is Some,
            |k: usize| self.nodes@[self.keys@[k as int]->0 as int].weight,
        )
    }

    /// Well-formed: key table and slots point at each other one to one, and
    /// every slot's total is the exact sum of its subtree's weights.
    pub closed spec fn wf(self) -> bool {
        &&& self.nodes@.len() < MAX_NODES
        &&& forall|i: int|
            0 <= i < self.nodes@.len() ==> {
                &&& (#[trigger] self.nodes@[i]).key < self.keys@.len()
                &&& self.keys@[self.nodes@[i].key as int] == Some(i as usize)
                &&& self.nodes@[i].total == tree_sum(self.ws(), i)
            }
        &&& forall|k: int|
            0 <= k < self.keys@.len() && (#[trigger] self.keys@[k]) is Some ==> {
                &&& (self.keys@[k]->0 as int) < self.nodes@.len()
                &&& self.nodes@[self.keys@[k]->0 as int].key as int == k
            }
    }

    /// The tree's total equals the plain sum of the contained weights.
    pub proof fn lemma_total_is_weight_sum(self)
        ensures
            self.total_weight() == seq_sum(self.ws()),
    {
        lemma_tree_sum_is_seq_sum(self.ws());
    }

    pub fn len(&self) -> (n: usize)
        ensures
            n == self.spec_len(),
    {
        self.nodes.len()
    }

    pub fn is_empty(&self) -> (r: bool)
        ensures
            r == (self.spec_len() == 0),
    {
        self.nodes.len() == 0
    }

    pub fn key_space(&self) -> (n: usize)
        ensures
            n == self.spec_key_space(),
    {
        self.keys.len()
    }

    /// Aggregate weight: the root's subtree total.
    pub fn total(&self) -> (t: u64)
        requires
            self.wf(),
        ensures
            t == self.total_weight(),
    {
        if self.nodes.len() == 0 {
            0
        } else {
            self.nodes[0].total
        }
    }

    pub fn contains_key(&self, k: usize) -> (r: bool)
        requires
            k < self.spec_key_space(),
        ensures
            r == self.contents().dom().contains(k),
    {
        self.keys[k].is_some()
    }

    /// The weight stored for key `k`, if the key is present.
    pub fn get(&self, k: usize) -> (r: Option<u64>)
        requires
            self.wf(),
            k < self.spec_key_space(),
        ensures
            r is Some <==> self.contents().dom().contains(k),
            r is Some ==> r->0 == self.contents()[k],
    {
        match self.keys[k] {
            Some(idx) => Some(self.nodes[idx].weight),
            None => None,
        }
    }
}

/// Recompute the stored total of slot `i` from its own weight and its
/// children's stored totals.
fn update_node_at(nodes: &mut Vec<Node>, i: usize)
    requires
        i < old(nodes)@.len(),
        old(nodes)@.len() < MAX_NODES,
        tree_sum(node_weights(old(nodes)@), i as int) <= u64::MAX,
        2 * i + 1 < old(nodes)@.len() ==> old(nodes)@[2 * i + 1].total == tree_sum(
            node_weights(old(nodes)@),
            2 * i + 1,
        ),
        2 * i + 2 < old(nodes)@.len() ==> old(nodes)@[2 * i + 2].total == tree_sum(
            node_weights(old(nodes)@),
            2 * i + 2,
        ),
    ensures
        final(nodes)@.len() == old(nodes)@.len(),
        forall|j: int|
            0 <= j < old(nodes)@.len() && j != i ==> final(nodes)@[j] == old(nodes)@[j],
        final(nodes)@[i as int].key == old(nodes)@[i as int].key,
        final(nodes)@[i as int].weight == old(nodes)@[i as int].weight,
        final(nodes)@[i as int].total == tree_sum(node_weights(old(nodes)@), i as int),
        node_weights(final(nodes)@) == node_weights(old(nodes)@),
{
    let ghost ws = node_weights(old(nodes)@);
    let n = nodes.len();
    let nd = nodes[i];
    let l = 2 * i + 1;
    let r = 2 * i + 2;
    let lt: u64 = if l < n {
        nodes[l].total
    } else {
        0
    };
    let rt: u64 = if r < n {
        nodes[r].total
    } else {
        0
    };
    proof {
        assert(tree_sum(ws, i as int) == ws[i as int] + tree_sum(ws, l as int) + tree_sum(
            ws,
            r as int,
        ));
        if l >= n {
            assert(tree_sum(ws, l as int) == 0);
        }
        if r >= n {
            assert(tree_sum(ws, r as int) == 0);
        }
    }
    let total = nd.weight + lt + rt;
    nodes.set(i, Node { key: nd.key, weight: nd.weight, total });
    proof {
        assert(node_weights(nodes@) =~= ws);
    }
}

/// Recompute the totals along the path from slot `idx` to the root; all other
/// slots must already be exact.
fn fix_path(nodes: &mut Vec<Node>, idx: usize)
    requires
        idx < old(nodes)@.len(),
        old(nodes)@.len() < MAX_NODES,
        tree_sum(node_weights(old(nodes)@), 0) <= u64::MAX,
        totals_ok_except(old(nodes)@, idx as int),
    ensures
        final(nodes)@.len() == old(nodes)@.len(),
        forall|j: int|
            0 <= j < old(nodes)@.len() ==> {
                &&& (#[trigger] final(nodes)@[j]).key == old(nodes)@[j].key
                &&& final(nodes)@[j].weight == old(nodes)@[j].weight
                &&& final(nodes)@[j].total == tree_sum(node_weights(old(nodes)@), j)
            },
        node_weights(final(nodes)@) == node_weights(old(nodes)@),
{
    let ghost ws = node_weights(old(nodes)@);
    let ghost n = old(nodes)@.len() as int;
    let mut cur = idx;
    proof {
        lemma_tree_sum_le_root(ws, cur as int);
        assert(in_subtree(cur as int, cur as int));
        assert(!in_subtree(2 * cur as int + 1, cur as int));
        assert(!in_subtree(2 * cur as int + 2, cur as int));
    }
    update_node_at(nodes, cur);
    while cur != 0
        invariant
            (cur as int) < n,
            nodes@.len() == n,
            n < MAX_NODES,
            node_weights(nodes@) == ws,
            tree_sum(ws, 0) <= u64::MAX,
            forall|j: int|
                0 <= j < n ==> (#[trigger] nodes@[j]).key == old(nodes)@[j].key && nodes@[j].weight
                    == old(nodes)@[j].weight,
            forall|j: int|
                0 <= j < n && (j == cur as int || !in_subtree(j, cur as int)) ==> (
                #[trigger] nodes@[j]).total == tree_sum(ws, j),
        decreases cur,
    {
        let parent = (cur - 1) / 2;
        proof {
            lemma_tree_sum_le_root(ws, parent as int);
            let c1 = 2 * parent as int + 1;
            let c2 = 2 * parent as int + 2;
            vstd::arithmetic::div_mod::lemma_fundamental_div_mod(cur as int - 1, 2);
            vstd::arithmetic::div_mod::lemma_mod_bound(cur as int - 1, 2);
            assert(cur as int == c1 || cur as int == c2);
            if cur as int == c1 {
                lemma_sibling_not_subtree(parent as int, c2, c1);
            } else {
                lemma_sibling_not_subtree(parent as int, c1, c2);
            }
            assert(!in_subtree(c1, cur as int) || c1 == cur as int);
            assert(!in_subtree(c2, cur as int) || c2 == cur as int);
        }
        update_node_at(nodes, parent);
        proof {
            assert(node_weights(nodes@) =~= ws);
            assert forall|j: int|
                0 <= j < n && (j == parent as int || !in_subtree(j, parent as int)) implies (
            #[trigger] nodes@[j]).total == tree_sum(ws, j) by {
                if j != parent as int {
                    if in_subtree(j, cur as int) && j != cur as int {
                        lemma_subtree_to_parent(parent as int, cur as int, j);
                        assert(in_subtree(j, parent as int));
                    }
                }
            }
        }
        cur = parent;
    }
    proof {
        assert forall|j: int| 0 <= j < n implies (#[trigger] nodes@[j]).total == tree_sum(
            ws,
            j,
        ) by {
            if j != 0 {
                assert(!in_subtree(j, 0));
            }
        }
    }
}


impl WeightedSelectionTree {
    /// Bulk construction from (key, weight) items over the dense key space
    /// [0, max_keys).
    pub fn new(items: &Vec<(usize, u64)>, max_keys: usize) -> (t: Self)
        requires
            items@.len() < MAX_NODES,
            forall|i: int, j: int|
                0 <= i < j < items@.len() ==> (#[trigger] items@[i]).0 != (#[trigger] items@[j]).0,
            forall|i: int| 0 <= i < items@.len() ==> (#[trigger] items@[i]).0 < max_keys,
            seq_sum(items@.map_values(|p: (usize, u64)| p.1)) <= u64::MAX,
        ensures
            t.wf(),
            t.spec_key_space() == max_keys,
            t.spec_len() == items@.len(),
            t.total_weight() == seq_sum(items@.map_values(|p: (usize, u64)| p.1)),
            forall|i: int|
                0 <= i < items@.len() ==> t.contents().contains_pair(
                    (#[trigger] items@[i]).0,
                    items@[i].1,
                ),
            forall|k: usize|
                t.contents().dom().contains(k) ==> exists|i: int|
                    0 <= i < items@.len() && (#[trigger] items@[i]).0 == k,
    {
        let ghost iws = items@.map_values(|p: (usize, u64)| p.1);
        let mut keys: Vec<Option<usize>> = Vec::new();
        let mut c: usize = 0;
        while c < max_keys
            invariant
                keys@.len() == c,
                c <= max_keys,
                forall|k: int| 0 <= k < c ==> (#[trigger] keys@[k]) is None,
            decreases max_keys - c,
        {
            keys.push(None);
            c = c + 1;
        }
        let n = items.len();
        let mut nodes: Vec<Node> = Vec::new();
        let mut i: usize = 0;
        while i < n
            invariant
                i <= n,
                n == items@.len(),
                n < MAX_NODES,
                keys@.len() == max_keys,
                nodes@.len() == i,
                forall|i2: int, j2: int|
                    0 <= i2 < j2 < items@.len() ==> (#[trigger] items@[i2]).0 != (
                    #[trigger] items@[j2]).0,
                forall|i2: int| 0 <= i2 < items@.len() ==> (#[trigger] items@[i2]).0 < max_keys,
                forall|j: int|
                    0 <= j < i ==> (#[trigger] nodes@[j]).key == items@[j].0 && nodes@[j].weight
                        == items@[j].1,
                forall|j: int| 0 <= j < i ==> (#[trigger] keys@[items@[j].0 as int]) == Some(
                    j as usize,
                ),
                forall|k: int|
                    0 <= k < max_keys && (#[trigger] keys@[k]) is Some ==> exists|j: int|
                        0 <= j < i && (#[trigger] items@[j]).0 == k,
            decreases n - i,
        {
            let (k, w) = items[i];
            nodes.push(Node { key: k, weight: w, total: w });
            keys.set(k, Some(i));
            i = i + 1;
        }
        proof {
            assert(node_weights(nodes@) =~= iws);
            lemma_tree_sum_is_seq_sum(iws);
        }
        let mut j: usize = n;
        while j > 0
            invariant
                j <= n,
                nodes@.len() == n,
                n < MAX_NODES,
                node_weights(nodes@) == iws,
                tree_sum(iws, 0) <= u64::MAX,
                forall|j2: int|
                    0 <= j2 < n ==> (#[trigger] nodes@[j2]).key == items@[j2].0
                        && nodes@[j2].weight == items@[j2].1,
                forall|j2: int|
                    j <= j2 < n ==> (#[trigger] nodes@[j2]).total == tree_sum(iws, j2),
            decreases j,
        {
            j = j - 1;
            proof {
                lemma_tree_sum_le_root(iws, j as int);
            }
            update_node_at(&mut nodes, j);
            proof {
                assert(node_weights(nodes@) =~= iws);
            }
        }
        let t = WeightedSelectionTree { nodes, keys };
        proof {
            assert(t.ws() =~= iws);
            assert forall|i2: int|
                0 <= i2 < items@.len() implies t.contents().contains_pair(
                (#[trigger] items@[i2]).0,
                items@[i2].1,
            ) by {
                assert(t.keys@[items@[i2].0 as int] == Some(i2 as usize));
            }
        }
        t
    }

    /// Insert or replace the weight stored for key `k`; returns the replaced
    /// weight when the key was already present.
    pub fn insert(&mut self, k: usize, w: u64) -> (old_w: Option<u64>)
        requires
            old(self).wf(),
            k < old(self).spec_key_space(),
            old(self).spec_len() + 1 < MAX_NODES,
            old(self).total_weight() + w <= u64::MAX,
        ensures
            final(self).wf(),
            final(self).spec_key_space() == old(self).spec_key_space(),
            final(self).contents() == old(self).contents().insert(k, w),
            old_w is Some <==> old(self).contents().dom().contains(k),
            old_w is Some ==> old_w->0 == old(self).contents()[k],
            old_w is Some ==> final(self).spec_len() == old(self).spec_len()
                && final(self).total_weight() + old_w->0 == old(self).total_weight() + w,
            old_w is None ==> final(self).spec_len() == old(self).spec_len() + 1
                && final(self).total_weight() == old(self).total_weight() + w,
    {
        let ghost ws0 = self.ws();
        proof {
            self.lemma_total_is_weight_sum();
        }
        match self.keys[k] {
            Some(idx) => {
                let nd = self.nodes[idx];
                let old_w = nd.weight;
                self.nodes.set(idx, Node { key: nd.key, weight: w, total: nd.total });
                proof {
                    let ws1 = self.ws();
                    assert(ws1 =~= ws0.update(idx as int, w));
                    lemma_seq_sum_update(ws0, idx as int, w);
                    lemma_tree_sum_is_seq_sum(ws1);
                    assert forall|j: int|
                        0 <= j < self.nodes@.len() && !in_subtree(j, idx as int) implies (
                    #[trigger] self.nodes@[j]).total == tree_sum(ws1, j) by {
                        lemma_tree_sum_frame(ws0, ws1, j);
                    }
                }
                fix_path(&mut self.nodes, idx);
                proof {
                    assert(self.contents() =~= old(self).contents().insert(k, w));
                    lemma_tree_sum_is_seq_sum(self.ws());
                }
                Some(old_w)
            },
            None => {
                let idx = self.nodes.len();
                self.nodes.push(Node { key: k, weight: w, total: w });
                self.keys.set(k, Some(idx));
                proof {
                    let ws1 = self.ws();
                    assert(ws1 =~= ws0.push(w));
                    lemma_seq_sum_push(ws0, w);
                    lemma_tree_sum_is_seq_sum(ws1);
                    assert forall|j: int|
                        0 <= j < self.nodes@.len() && !in_subtree(j, idx as int) implies (
                    #[trigger] self.nodes@[j]).total == tree_sum(ws1, j) by {
                        lemma_tree_sum_frame(ws0, ws1, j);
                    }
                }
                fix_path(&mut self.nodes, idx);
                proof {
                    assert forall|k2: int|
                        0 <= k2 < self.keys@.len() && (#[trigger] self.keys@[k2]) is Some implies (
                        self.keys@[k2]->0 as int) < self.nodes@.len()
                        && self.nodes@[self.keys@[k2]->0 as int].key as int == k2 by {
                        if k2 != k as int {
                            assert(old(self).keys@[k2] == self.keys@[k2]);
                        }
                    }
                    assert(self.contents() =~= old(self).contents().insert(k, w));
                    lemma_tree_sum_is_seq_sum(self.ws());
                }
                None
            },
        }
    }

    /// Remove the item in slot `idx`; returns its key and weight.
    fn remove_at(&mut self, idx: usize) -> (r: (usize, u64))
        requires
            old(self).wf(),
            idx < old(self).spec_len(),
        ensures
            final(self).wf(),
            final(self).spec_key_space() == old(self).spec_key_space(),
            final(self).spec_len() == old(self).spec_len() - 1,
            old(self).contents().contains_pair(r.0, r.1),
            r.0 == old(self).nodes@[idx as int].key,
            r.1 == old(self).nodes@[idx as int].weight,
            final(self).contents() == old(self).contents().remove(r.0),
            final(self).total_weight() + r.1 == old(self).total_weight(),
    {
        let ghost ws0 = self.ws();
        proof {
            self.lemma_total_is_weight_sum();
        }
        let m = self.nodes.len() - 1;
        let removed = self.nodes[idx];
        let last = self.nodes[m];
        self.nodes.pop();
        let ghost ws_a = self.ws();
        proof {
            assert(ws_a =~= ws0.drop_last());
            assert(seq_sum(ws0) == seq_sum(ws_a) + last.weight);
            lemma_tree_sum_is_seq_sum(ws_a);
            assert forall|j: int|
                0 <= j < m && !in_subtree(j, m as int) implies (#[trigger] self.nodes@[j]).total
                == tree_sum(ws_a, j) by {
                lemma_tree_sum_frame(ws0, ws_a, j);
            }
        }
        if idx == m {
            self.keys.set(removed.key, None);
            if m > 0 {
                let parent = (m - 1) / 2;
                proof {
                    vstd::arithmetic::div_mod::lemma_fundamental_div_mod(m as int - 1, 2);
                    vstd::arithmetic::div_mod::lemma_mod_bound(m as int - 1, 2);
                    assert forall|j: int|
                        0 <= j < m && !in_subtree(j, parent as int) implies (
                    #[trigger] self.nodes@[j]).total == tree_sum(ws_a, j) by {
                        if in_subtree(j, m as int) {
                            lemma_subtree_to_parent(parent as int, m as int, j);
                        }
                    }
                }
                fix_path(&mut self.nodes, parent);
            }
            proof {
                assert forall|k2: int|
                    0 <= k2 < self.keys@.len() && (#[trigger] self.keys@[k2]) is Some implies (
                    self.keys@[k2]->0 as int) < self.nodes@.len()
                    && self.nodes@[self.keys@[k2]->0 as int].key as int == k2 by {
                    assert(old(self).keys@[k2] == self.keys@[k2]);
                    let j = self.keys@[k2]->0 as int;
                    assert(old(self).nodes@[j].key as int == k2);
                    if j == m as int {
                        assert(k2 == removed.key as int);
                    }
                }
                assert(self.contents() =~= old(self).contents().remove(removed.key));
                lemma_tree_sum_is_seq_sum(self.ws());
            }
            (removed.key, removed.weight)
        } else {
            if m > 0 {
                let parent = (m - 1) / 2;
                proof {
                    vstd::arithmetic::div_mod::lemma_fundamental_div_mod(m as int - 1, 2);
                    vstd::arithmetic::div_mod::lemma_mod_bound(m as int - 1, 2);
                    assert forall|j: int|
                        0 <= j < m && !in_subtree(j, parent as int) implies (
                    #[trigger] self.nodes@[j]).total == tree_sum(ws_a, j) by {
                        if in_subtree(j, m as int) {
                            lemma_subtree_to_parent(parent as int, m as int, j);
                        }
                    }
                }
                fix_path(&mut self.nodes, parent);
            }
            let stale = self.nodes[idx];
            self.nodes.set(idx, Node { key: last.key, weight: last.weight, total: stale.total });
            let ghost ws_b = self.ws();
            proof {
                assert(ws_b =~= ws_a.update(idx as int, last.weight));
                lemma_seq_sum_update(ws_a, idx as int, last.weight);
                lemma_tree_sum_is_seq_sum(ws_b);
                assert forall|j: int|
                    0 <= j < self.nodes@.len() && !in_subtree(j, idx as int) implies (
                #[trigger] self.nodes@[j]).total == tree_sum(ws_b, j) by {
                    lemma_tree_sum_frame(ws_a, ws_b, j);
                }
            }
            fix_path(&mut self.nodes, idx);
            proof {
                // the removed and displaced keys differ
                assert(old(self).keys@[removed.key as int] == Some(idx));
                assert(old(self).keys@[last.key as int] == Some(m as usize));
            }
            self.keys.set(removed.key, None);
            self.keys.set(last.key, Some(idx));
            proof {
                assert forall|k2: int|
                    0 <= k2 < self.keys@.len() && (#[trigger] self.keys@[k2]) is Some implies (
                    self.keys@[k2]->0 as int) < self.nodes@.len()
                    && self.nodes@[self.keys@[k2]->0 as int].key as int == k2 by {
                    if k2 != last.key as int && k2 != removed.key as int {
                        assert(old(self).keys@[k2] == self.keys@[k2]);
                        let j = self.keys@[k2]->0 as int;
                        assert(old(self).nodes@[j].key as int == k2);
                    }
                }
                assert forall|i2: int| 0 <= i2 < self.nodes@.len() implies {
                    &&& (#[trigger] self.nodes@[i2]).key < self.keys@.len()
                    &&& self.keys@[self.nodes@[i2].key as int] == Some(i2 as usize)
                } by {
                    if i2 != idx as int {
                        assert(self.nodes@[i2].key == old(self).nodes@[i2].key);
                        assert(old(self).keys@[old(self).nodes@[i2].key as int] == Some(
                            i2 as usize,
                        ));
                        assert(old(self).nodes@[i2].key != removed.key || i2 == idx as int);
                        assert(old(self).nodes@[i2].key != last.key || i2 == m as int);
                    }
                }
                assert(self.contents() =~= old(self).contents().remove(removed.key));
                lemma_tree_sum_is_seq_sum(self.ws());
            }
            (removed.key, removed.weight)
        }
    }

    /// Remove the item stored under key `k`; returns its weight.
    pub fn remove(&mut self, k: usize) -> (w: u64)
        requires
            old(self).wf(),
            k < old(self).spec_key_space(),
            old(self).contents().dom().contains(k),
        ensures
            final(self).wf(),
            final(self).spec_key_space() == old(self).spec_key_space(),
            final(self).spec_len() == old(self).spec_len() - 1,
            w == old(self).contents()[k],
            final(self).contents() == old(self).contents().remove(k),
            final(self).total_weight() + w == old(self).total_weight(),
    {
        let idx = self.keys[k].unwrap();
        let (_, w) = self.remove_at(idx);
        w
    }
}


impl WeightedSelectionTree {
    /// The key that the weighted descent would select for draw value `x`.
    pub closed spec fn spec_selected(self, x: int) -> usize {
        self.nodes@[spec_find(self.ws(), x, 0)].key
    }

    /// Slot of the item whose weight interval contains `x` under the descent
    /// rule of `spec_find`.
    fn find_idx(&self, x: u64) -> (idx: usize)
        requires
            self.wf(),
            self.spec_len() > 0,
        ensures
            idx as int == spec_find(self.ws(), x as int, 0),
            idx < self.spec_len(),
    {
        let ghost ws = self.ws();
        let ghost x0 = x as int;
        let n = self.nodes.len();
        let mut cur: usize = 0;
        let mut x = x;
        loop
            invariant_except_break
                self.wf(),
                n == self.spec_len(),
                cur < n,
                spec_find(ws, x0, 0) == spec_find(ws, x as int, cur as int),
                ws == self.ws(),
            ensures
                cur < n && cur as int == spec_find(ws, x0, 0),
            decreases n - cur,
        {
            let w = self.nodes[cur].weight;
            let l = 2 * cur + 1;
            if x <= w || l >= n {
                proof {
                    assert(spec_find(ws, x as int, cur as int) == cur as int);
                }
                break ;
            }
            let x1 = x - w;
            let r = l + 1;
            let lt = self.nodes[l].total;
            proof {
                assert(lt == tree_sum(ws, l as int));
            }
            if x1 <= lt || r >= n {
                proof {
                    assert(spec_find(ws, x as int, cur as int) == spec_find(
                        ws,
                        x1 as int,
                        l as int,
                    ));
                }
                x = x1;
                cur = l;
            } else {
                proof {
                    assert(spec_find(ws, x as int, cur as int) == spec_find(
                        ws,
                        x1 as int - tree_sum(ws, l as int),
                        r as int,
                    ));
                }
                x = x1 - lt;
                cur = r;
            }
        }
        cur
    }

    /// Draw by weight: remove and return the unique item whose weight
    /// interval contains `x` under the descent rule, together with its
    /// weight. Returns None only on an empty tree.
    pub fn select_remove(&mut self, x: u64) -> (r: Option<(usize, u64)>)
        requires
            old(self).wf(),
            x <= old(self).total_weight(),
        ensures
            final(self).wf(),
            final(self).spec_key_space() == old(self).spec_key_space(),
            r is None <==> old(self).spec_len() == 0,
            r is None ==> *final(self) == *old(self),
            r is Some ==> {
                let p = r->0;
                &&& p.0 == old(self).spec_selected(x as int)
                &&& old(self).contents().contains_pair(p.0, p.1)
                &&& final(self).contents() == old(self).contents().remove(p.0)
                &&& final(self).spec_len() == old(self).spec_len() - 1
                &&& final(self).total_weight() + p.1 == old(self).total_weight()
            },
    {
        if self.nodes.len() == 0 {
            return None;
        }
        let idx = self.find_idx(x);
        let (k, w) = self.remove_at(idx);
        Some((k, w))
    }

    /// Remove the items stored under the given distinct keys; the result
    /// lists them with their weights, in the order of `ks`.
    pub fn remove_bulk(&mut self, ks: &Vec<usize>) -> (r: Vec<(usize, u64)>)
        requires
            old(self).wf(),
            forall|i: int, j: int|
                0 <= i < j < ks@.len() ==> (#[trigger] ks@[i]) != (#[trigger] ks@[j]),
            forall|i: int|
                0 <= i < ks@.len() ==> (#[trigger] ks@[i]) < old(self).spec_key_space() && old(
                    self,
                ).contents().dom().contains(ks@[i]),
        ensures
            final(self).wf(),
            final(self).spec_key_space() == old(self).spec_key_space(),
            r@.len() == ks@.len(),
            forall|i: int|
                0 <= i < ks@.len() ==> (#[trigger] r@[i]) == (ks@[i], old(self).contents()[ks@[i]]),
            final(self).contents() == old(self).contents().remove_keys(ks@.to_set()),
            final(self).spec_len() + ks@.len() == old(self).spec_len(),
    {
        let mut out: Vec<(usize, u64)> = Vec::new();
        let n = ks.len();
        let mut i: usize = 0;
        while i < n
            invariant
                i <= n,
                n == ks@.len(),
                self.wf(),
                self.spec_key_space() == old(self).spec_key_space(),
                forall|a: int, b: int|
                    0 <= a < b < ks@.len() ==> (#[trigger] ks@[a]) != (#[trigger] ks@[b]),
                forall|a: int|
                    0 <= a < ks@.len() ==> (#[trigger] ks@[a]) < old(self).spec_key_space() && old(
                        self,
                    ).contents().dom().contains(ks@[a]),
                out@.len() == i,
                forall|a: int|
                    0 <= a < i ==> (#[trigger] out@[a]) == (ks@[a], old(self).contents()[ks@[a]]),
                self.contents() == old(self).contents().remove_keys(ks@.take(i as int).to_set()),
                self.spec_len() + i == old(self).spec_len(),
            decreases n - i,
        {
            let k = ks[i];
            proof {
                assert(!ks@.take(i as int).to_set().contains(k)) by {
                    if ks@.take(i as int).to_set().contains(k) {
                        let a = choose|a: int|
                            0 <= a < i && (#[trigger] ks@.take(i as int)[a]) == k;
                        assert(ks@[a] == ks@[i as int]);
                    }
                }
                assert(self.contents().dom().contains(k));
                assert(self.contents()[k] == old(self).contents()[k]);
            }
            let w = self.remove(k);
            out.push((k, w));
            proof {
                assert(ks@.take(i + 1).drop_last() =~= ks@.take(i as int));
                assert(ks@.take(i + 1).to_set() =~= ks@.take(i as int).to_set().insert(k)) by {
                    assert forall|e: usize| ks@.take(i + 1).to_set().contains(e) implies ks@.take(
                        i as int,
                    ).to_set().insert(k).contains(e) by {
                        let a = choose|a: int|
                            0 <= a < i + 1 && (#[trigger] ks@.take(i + 1)[a]) == e;
                        if a < i {
                            assert(ks@.take(i as int)[a] == e);
                        }
                    }
                    assert forall|e: usize|
                        ks@.take(i as int).to_set().insert(k).contains(e) implies ks@.take(
                        i + 1,
                    ).to_set().contains(e) by {
                        if e == k {
                            assert(ks@.take(i + 1)[i as int] == e);
                        } else {
                            let a = choose|a: int|
                                0 <= a < i && (#[trigger] ks@.take(i as int)[a]) == e;
                            assert(ks@.take(i + 1)[a] == e);
                        }
                    }
                }
                assert(self.contents() =~= old(self).contents().remove_keys(
                    ks@.take(i + 1).to_set(),
                ));
            }
            i = i + 1;
        }
        proof {
            assert(ks@.take(n as int) =~= ks@);
        }
        out
    }

    /// Insert items under distinct keys that are not yet present.
    pub fn insert_bulk(&mut self, entries: &Vec<(usize, u64)>) -> (r: ())
        requires
            old(self).wf(),
            forall|i: int, j: int|
                0 <= i < j < entries@.len() ==> (#[trigger] entries@[i]).0 != (
                #[trigger] entries@[j]).0,
            forall|i: int|
                0 <= i < entries@.len() ==> (#[trigger] entries@[i]).0 < old(
                    self,
                ).spec_key_space() && !old(self).contents().dom().contains(entries@[i].0),
            old(self).spec_len() + entries@.len() < MAX_NODES,
            old(self).total_weight() + seq_sum(entries@.map_values(|p: (usize, u64)| p.1))
                <= u64::MAX,
        ensures
            final(self).wf(),
            final(self).spec_key_space() == old(self).spec_key_space(),
            final(self).spec_len() == old(self).spec_len() + entries@.len(),
            forall|i: int|
                0 <= i < entries@.len() ==> final(self).contents().contains_pair(
                    (#[trigger] entries@[i]).0,
                    entries@[i].1,
                ),
            forall|k: usize|
                final(self).contents().dom().contains(k) ==> old(self).contents().dom().contains(k)
                    || exists|i: int|
                    0 <= i < entries@.len() && (#[trigger] entries@[i]).0 == k,
            forall|k: usize|
                old(self).contents().dom().contains(k) ==> #[trigger] final(
                    self).contents().contains_pair(k, old(self).contents()[k]),
    {
        let ghost ews = entries@.map_values(|p: (usize, u64)| p.1);
        let n = entries.len();
        let mut i: usize = 0;
        while i < n
            invariant
                i <= n,
                n == entries@.len(),
                ews == entries@.map_values(|p: (usize, u64)| p.1),
                self.wf(),
                self.spec_key_space() == old(self).spec_key_space(),
                forall|a: int, b: int|
                    0 <= a < b < entries@.len() ==> (#[trigger] entries@[a]).0 != (
                    #[trigger] entries@[b]).0,
                forall|a: int|
                    0 <= a < entries@.len() ==> (#[trigger] entries@[a]).0 < old(
                        self,
                    ).spec_key_space() && !old(self).contents().dom().contains(entries@[a].0),
                old(self).spec_len() + entries@.len() < MAX_NODES,
                old(self).total_weight() + seq_sum(ews) <= u64::MAX,
                self.spec_len() == old(self).spec_len() + i,
                self.total_weight() == old(self).total_weight() + seq_sum(ews.take(i as int)),
                self.contents() == pairs_inserted(old(self).contents(), entries@, i as int),
            decreases n - i,
        {
            let (k, w) = entries[i];
            proof {
                assert(ews.len() == n);
                assert(ews[i as int] == w);
                lemma_seq_sum_take_le(ews, i as int);
                assert(ews.take(i + 1).drop_last() =~= ews.take(i as int));
                assert(ews.take(i + 1).last() == w);
                assert(seq_sum(ews.take(i + 1)) == seq_sum(ews.take(i as int)) + w);
                lemma_pairs_inserted_dom(old(self).contents(), entries@, i as int);
            }
            self.insert(k, w);
            proof {
                assert(self.contents() =~= pairs_inserted(
                    old(self).contents(),
                    entries@,
                    i + 1,
                ));
            }
            i = i + 1;
        }
        proof {
            assert(ews.take(n as int) =~= ews);
            lemma_pairs_inserted_dom(old(self).contents(), entries@, n as int);
            lemma_pairs_inserted_props(old(self).contents(), entries@, n as int);
        }
    }
}

/// The map after inserting the first `n` of the given (key, weight) pairs.
pub open spec fn pairs_inserted(m: Map<usize, u64>, ps: Seq<(usize, u64)>, n: int) -> Map<
    usize,
    u64,
>
    decreases n,
{
    if n <= 0 {
        m
    } else {
        pairs_inserted(m, ps, n - 1).insert(ps[n - 1].0, ps[n - 1].1)
    }
}

proof fn lemma_pairs_inserted_dom(m: Map<usize, u64>, ps: Seq<(usize, u64)>, n: int)
    requires
        n <= ps.len(),
    ensures
        forall|k: usize|
            pairs_inserted(m, ps, n).dom().contains(k) <==> m.dom().contains(k) || exists|i: int|
                0 <= i < n && (#[trigger] ps[i]).0 == k,
    decreases n,
{
    if n > 0 {
        lemma_pairs_inserted_dom(m, ps, n - 1);
        assert forall|k: usize| pairs_inserted(m, ps, n).dom().contains(k) implies m.dom().contains(
            k,
        ) || exists|i: int| 0 <= i < n && (#[trigger] ps[i]).0 == k by {
            if k == ps[n - 1].0 {
                assert(0 <= n - 1 < n && (#[trigger] ps[n - 1]).0 == k);
            } else {
                if !m.dom().contains(k) {
                    let a = choose|a: int| 0 <= a < n - 1 && (#[trigger] ps[a]).0 == k;
                    assert(0 <= a < n && ps[a].0 == k);
                }
            }
        }
        assert forall|k: usize|
            m.dom().contains(k) || exists|i: int|
                0 <= i < n && (#[trigger] ps[i]).0 == k implies pairs_inserted(
            m,
            ps,
            n,
        ).dom().contains(k) by {
            if m.dom().contains(k) {
                assert(pairs_inserted(m, ps, n - 1).dom().contains(k));
            } else {
                let a = choose|a: int| 0 <= a < n && (#[trigger] ps[a]).0 == k;
                if a < n - 1 {
                    assert(0 <= a < n - 1 && ps[a].0 == k);
                    assert(pairs_inserted(m, ps, n - 1).dom().contains(k));
                }
            }
        }
    }
}

proof fn lemma_pairs_inserted_props(m: Map<usize, u64>, ps: Seq<(usize, u64)>, n: int)
    requires
        n <= ps.len(),
        forall|i: int, j: int| 0 <= i < j < ps.len() ==> (#[trigger] ps[i]).0 != (#[trigger] ps[j]).0,
        forall|i: int| 0 <= i < ps.len() ==> !m.dom().contains((#[trigger] ps[i]).0),
    ensures
        forall|i: int|
            0 <= i < n ==> pairs_inserted(m, ps, n).contains_pair((#[trigger] ps[i]).0, ps[i].1),
        forall|k: usize|
            m.dom().contains(k) ==> pairs_inserted(m, ps, n).contains_pair(k, m[k]),
    decreases n,
{
    if n > 0 {
        lemma_pairs_inserted_props(m, ps, n - 1);
    }
}

proof fn lemma_seq_sum_take_le(ws: Seq<u64>, i: int)
    requires
        0 <= i < ws.len(),
    ensures
        seq_sum(ws.take(i + 1)) <= seq_sum(ws),
        seq_sum(ws.take(i as int)) <= seq_sum(ws),
    decreases ws.len() - i,
{
    if i + 1 == ws.len() {
        assert(ws.take(i + 1) =~= ws);
        assert(ws.take(i as int) =~= ws.drop_last());
        assert(seq_sum(ws) == seq_sum(ws.drop_last()) + ws.last());
    } else {
        lemma_seq_sum_take_le(ws, i + 1);
        assert(ws.take(i as int) =~= ws.take(i + 1).drop_last());
        assert(seq_sum(ws.take(i + 1)) == seq_sum(ws.take(i as int)) + ws.take(i + 1).last());
    }
}


impl WeightedSelectionTree {
    /// An empty tree contains no key.
    pub proof fn lemma_empty_no_dom(self)
        requires
            self.wf(),
            self.spec_len() == 0,
        ensures
            forall|k: usize| !(#[trigger] self.contents().dom().contains(k)),
    {
    }

    /// Contained keys lie inside the key space.
    pub proof fn lemma_dom_bounded(self)
        ensures
            forall|k: usize|
                #[trigger] self.contents().dom().contains(k) ==> (k as int) < self.spec_key_space(),
    {
    }
}

} // verus!
