use vstd::prelude::*;

verus! {

/// How many times `b` occurs in `s`.
pub open spec fn count_of(s: Seq<u8>, b: u8) -> nat
    decreases s.len(),
{
    if s.len() == 0 {
        0
    } else {
        count_of(s.drop_last(), b) + if s.last() == b {
            1nat
        } else {
            0nat
        }
    }
}

/// A node of a Huffman tree: a leaf holds one symbol, an internal node two
/// subtrees; each carries the frequency of the symbols below it.
pub enum HuffmanNode {
    Leaf { frequency: usize, symbol: u8 },
    Internal { frequency: usize, left: Box<HuffmanNode>, right: Box<HuffmanNode> },
}

impl HuffmanNode {
    pub open spec fn freq(&self) -> nat {
        match self {
            HuffmanNode::Leaf { frequency, .. } => *frequency as nat,
            HuffmanNode::Internal { frequency, .. } => *frequency as nat,
        }
    }

    /// Some leaf below this node holds `s`.
    pub open spec fn has(&self, s: u8) -> bool
        decreases self,
    {
        match self {
            HuffmanNode::Leaf { symbol, .. } => *symbol == s,
            HuffmanNode::Internal { left, right, .. } => left.has(s) || right.has(s),
        }
    }

    /// Each internal node carries the sum of its children's frequencies, and
    /// no symbol sits below both children of a node.
    pub open spec fn wf(&self) -> bool
        decreases self,
    {
        match self {
            HuffmanNode::Leaf { .. } => true,
            HuffmanNode::Internal { frequency, left, right } => {
                &&& *frequency as nat == left.freq() + right.freq()
                &&& left.wf()
                &&& right.wf()
                &&& forall|s: u8| !(#[trigger] left.has(s) && right.has(s))
            },
        }
    }

    /// The frequency carried by this node.
    pub fn frequency(&self) -> (r: usize)
        ensures
            r == self.freq(),
    {
        match self {
            HuffmanNode::Leaf { frequency, .. } => *frequency,
            HuffmanNode::Internal { frequency, .. } => *frequency,
        }
    }

    /// Whether some leaf below this node holds `symbol`.
    pub fn contains(&self, symbol: u8) -> (r: bool)
        ensures
            r == self.has(symbol),
        decreases self,
    {
        match self {
            HuffmanNode::Leaf { symbol: s, .. } => *s == symbol,
            HuffmanNode::Internal { left, right, .. } => {
                left.contains(symbol) || right.contains(symbol)
            },
        }
    }
}

/// How many elements of `data` some leaf of `node` holds.
pub open spec fn weight(data: Seq<u8>, node: HuffmanNode) -> nat
    decreases data.len(),
{
    if data.len() == 0 {
        0
    } else {
        weight(data.drop_last(), node) + if node.has(data.last()) {
            1nat
        } else {
            0nat
        }
    }
}

pub proof fn lemma_count_contains(s: Seq<u8>, b: u8)
    ensures
        count_of(s, b) <= s.len(),
        (count_of(s, b) > 0) == s.contains(b),
    decreases s.len(),
{
    if s.len() > 0 {
        let p = s.drop_last();
        lemma_count_contains(p, b);
        if p.contains(b) {
            let i = choose|i: int| 0 <= i < p.len() && p[i] == b;
            assert(s[i] == b);
        }
        if s.last() == b {
            assert(s[s.len() - 1] == b);
        }
        if s.contains(b) {
            let i = choose|i: int| 0 <= i < s.len() && s[i] == b;
            if i < s.len() - 1 {
                assert(p[i] == b);
            }
        }
    }
}

proof fn lemma_weight_leaf(data: Seq<u8>, node: HuffmanNode, s: u8)
    requires
        node matches HuffmanNode::Leaf { symbol, .. } && symbol == s,
    ensures
        weight(data, node) == count_of(data, s),
    decreases data.len(),
{
    if data.len() > 0 {
        lemma_weight_leaf(data.drop_last(), node, s);
    }
}

/// Two nodes with no symbol in common weigh together at most the whole input,
/// and a node over both weighs their sum.
proof fn lemma_weight_disjoint(data: Seq<u8>, a: HuffmanNode, b: HuffmanNode, m: HuffmanNode)
    requires
        forall|s: u8| !(#[trigger] a.has(s) && b.has(s)),
        forall|s: u8| #[trigger] m.has(s) == (a.has(s) || b.has(s)),
    ensures
        weight(data, a) + weight(data, b) <= data.len(),
        weight(data, m) == weight(data, a) + weight(data, b),
    decreases data.len(),
{
    if data.len() > 0 {
        lemma_weight_disjoint(data.drop_last(), a, b, m);
        assert(!(a.has(data.last()) && b.has(data.last())));
        assert(m.has(data.last()) == (a.has(data.last()) || b.has(data.last())));
    }
}

/// A node that holds every symbol of the input weighs the whole input.
proof fn lemma_weight_full(data: Seq<u8>, node: HuffmanNode)
    requires
        forall|s: u8| data.contains(s) ==> #[trigger] node.has(s),
    ensures
        weight(data, node) == data.len(),
    decreases data.len(),
{
    if data.len() > 0 {
        let p = data.drop_last();
        assert forall|s: u8| p.contains(s) implies #[trigger] node.has(s) by {
            let i = choose|i: int| 0 <= i < p.len() && p[i] == s;
            assert(data[i] == s);
        }
        lemma_weight_full(p, node);
        assert(data[data.len() - 1] == data.last());
        assert(data.contains(data.last()));
    }
}


/// The bytes below `b` that occur in `data`, each with its count, in
/// increasing order of byte.
pub open spec fn alphabet_counts(data: Seq<u8>, b: nat) -> Seq<(u8, usize)>
    decreases b,
{
    if b == 0 {
        Seq::empty()
    } else {
        let prev = alphabet_counts(data, (b - 1) as nat);
        let c = count_of(data, (b - 1) as u8);
        if c > 0 {
            prev.push(((b - 1) as u8, c as usize))
        } else {
            prev
        }
    }
}

/// One leaf per `(symbol, frequency)` pair, in order.
pub open spec fn leaf_forest(pairs: Seq<(u8, usize)>) -> Seq<HuffmanNode> {
    pairs.map_values(|p: (u8, usize)| HuffmanNode::Leaf { frequency: p.1, symbol: p.0 })
}

/// `r` is the first index of a tree of least frequency.
pub open spec fn is_first_min(f: Seq<HuffmanNode>, r: int) -> bool {
    &&& 0 <= r < f.len()
    &&& forall|k: int| 0 <= k < f.len() ==> f[r].freq() <= #[trigger] f[k].freq()
    &&& forall|k: int| 0 <= k < r ==> f[r].freq() < #[trigger] f[k].freq()
}

pub open spec fn first_min(f: Seq<HuffmanNode>) -> int {
    choose|r: int| is_first_min(f, r)
}

/// One merge: the first tree of least frequency is taken out, then the first
/// of least frequency among the rest, and a node over the two (the first on
/// the left) goes to the end.
pub open spec fn merge_step(f: Seq<HuffmanNode>) -> Seq<HuffmanNode> {
    let ia = first_min(f);
    let a = f[ia];
    let f1 = f.remove(ia);
    let ib = first_min(f1);
    let b = f1[ib];
    f1.remove(ib).push(
        HuffmanNode::Internal {
            frequency: (a.freq() + b.freq()) as usize,
            left: Box::new(a),
            right: Box::new(b),
        },
    )
}

/// The tree left after `n - 1` merges of the forest `f`.
pub open spec fn merge_all(f: Seq<HuffmanNode>, n: nat) -> HuffmanNode
    decreases n,
{
    if n <= 1 {
        f[0]
    } else {
        merge_all(merge_step(f), (n - 1) as nat)
    }
}

/// The Huffman tree of non-empty `data`: its leaves in increasing order of
/// symbol, merged until one tree is left.
pub open spec fn huffman_tree_of(data: Seq<u8>) -> HuffmanNode {
    let f = leaf_forest(alphabet_counts(data, 256));
    merge_all(f, f.len())
}

proof fn lemma_first_min(f: Seq<HuffmanNode>, r: int)
    requires
        is_first_min(f, r),
    ensures
        first_min(f) == r,
{
    let c = first_min(f);
    assert(is_first_min(f, c));
    if c < r {
        assert(f[r].freq() < f[c].freq());
    } else if r < c {
        assert(f[c].freq() < f[r].freq());
    }
}

/// Counts each distinct byte of `data`: one `(symbol, count)` entry per byte
/// value that occurs, in increasing order of symbol.
pub fn frequency_table(data: &Vec<u8>) -> (r: Vec<(u8, usize)>)
    ensures
        forall|i: int, j: int| 0 <= i < j < r@.len() ==> r@[i].0 < r@[j].0,
        forall|i: int|
            0 <= i < r@.len() ==> #[trigger] r@[i].1 as nat == count_of(data@, r@[i].0) && r@[i].1
                > 0,
        forall|b: u8| data@.contains(b) <==> exists|i: int| 0 <= i < r@.len() && #[trigger] r@[i].0 == b,
        r@ == alphabet_counts(data@, 256),
{
    let mut counts: Vec<usize> = Vec::new();
    let mut k: usize = 0;
    while k < 256
        invariant
            k <= 256,
            counts@.len() == k,
            forall|c: int| 0 <= c < k ==> counts@[c] == 0,
        decreases 256 - k,
    {
        counts.push(0);
        k = k + 1;
    }
    let mut i: usize = 0;
    while i < data.len()
        invariant
            i <= data@.len(),
            counts@.len() == 256,
            forall|c: int| 0 <= c < 256 ==> #[trigger] counts@[c] == count_of(data@.subrange(0, i as int), c as u8),
        decreases data@.len() - i,
    {
        let x = data[i];
        let ghost prev = data@.subrange(0, i as int);
        let ghost next = data@.subrange(0, i + 1);
        assert(next.drop_last() == prev);
        proof {
            lemma_count_contains(prev, x);
        }
        let c = counts[x as usize];
        counts.set(x as usize, c + 1);
        i = i + 1;
        assert forall|c: int| 0 <= c < 256 implies #[trigger] counts@[c] == count_of(next, c as u8) by {
            assert(next.last() == x);
        }
    }
    assert(data@.subrange(0, data@.len() as int) == data@);
    let mut r: Vec<(u8, usize)> = Vec::new();
    let mut b: usize = 0;
    while b < 256
        invariant
            b <= 256,
            counts@.len() == 256,
            forall|c: int| 0 <= c < 256 ==> #[trigger] counts@[c] == count_of(data@, c as u8),
            r@ == alphabet_counts(data@, b as nat),
            forall|i: int| 0 <= i < r@.len() ==> r@[i].0 < b,
            forall|i: int, j: int| 0 <= i < j < r@.len() ==> r@[i].0 < r@[j].0,
            forall|i: int|
                0 <= i < r@.len() ==> #[trigger] r@[i].1 as nat == count_of(data@, r@[i].0) && r@[i].1
                    > 0,
            forall|c: u8|
                c < b && count_of(data@, c) > 0 ==> exists|i: int| 0 <= i < r@.len() && #[trigger] r@[i].0 == c,
        decreases 256 - b,
    {
        let c = counts[b];
        let ghost r0 = r@;
        assert(c == count_of(data@, b as u8));
        if c > 0 {
            r.push((b as u8, c));
            assert(r@[r@.len() - 1].0 == b as u8);
        }
        assert forall|x: u8|
            x <= b && count_of(data@, x) > 0 implies exists|i: int|
                0 <= i < r@.len() && #[trigger] r@[i].0 == x by {
            if x as usize == b {
                assert(counts@[x as int] == count_of(data@, x));
                assert(r@[r@.len() - 1].0 == x);
            } else {
                let i = choose|i: int| 0 <= i < r0.len() && #[trigger] r0[i].0 == x;
                assert(r@[i] == r0[i]);
            }
        }
        b = b + 1;
    }
    assert forall|x: u8| data@.contains(x) <==> exists|i: int| 0 <= i < r@.len() && #[trigger] r@[i].0 == x by {
        lemma_count_contains(data@, x);
        if exists|i: int| 0 <= i < r@.len() && #[trigger] r@[i].0 == x {
            let i = choose|i: int| 0 <= i < r@.len() && #[trigger] r@[i].0 == x;
            assert(r@[i].1 > 0);
        }
    }
    r
}


/// Some tree of the forest holds `s`.
pub open spec fn forest_has(f: Seq<HuffmanNode>, s: u8) -> bool {
    exists|i: int| 0 <= i < f.len() && #[trigger] f[i].has(s)
}

/// Every tree of the forest is well formed and carries its weight in `data`,
/// and no symbol is held by two trees.
pub open spec fn forest_ok(f: Seq<HuffmanNode>, data: Seq<u8>) -> bool {
    &&& forall|i: int| 0 <= i < f.len() ==> #[trigger] f[i].wf() && f[i].freq() == weight(data, f[i])
    &&& forall|i: int, j: int, s: u8|
        0 <= i < f.len() && 0 <= j < f.len() && i != j ==> !(#[trigger] f[i].has(s)
            && #[trigger] f[j].has(s))
}

proof fn lemma_forest_remove(f: Seq<HuffmanNode>, data: Seq<u8>, i: int)
    requires
        forest_ok(f, data),
        0 <= i < f.len(),
    ensures
        forest_ok(f.remove(i), data),
        forall|s: u8| forest_has(f, s) == (forest_has(f.remove(i), s) || f[i].has(s)),
        forall|s: u8| f[i].has(s) ==> !forest_has(f.remove(i), s),
{
    let g = f.remove(i);
    assert forall|k: int| 0 <= k < g.len() implies #[trigger] g[k] == f[if k < i { k } else { k + 1 }] by {}
    assert forall|k: int| 0 <= k < g.len() implies #[trigger] g[k].wf() && g[k].freq() == weight(data, g[k]) by {
        let o = if k < i { k } else { k + 1 };
        assert(g[k] == f[o]);
    }
    assert forall|k: int, l: int, s: u8|
        0 <= k < g.len() && 0 <= l < g.len() && k != l implies !(#[trigger] g[k].has(s) && #[trigger] g[l].has(s)) by {
        let ok = if k < i { k } else { k + 1 };
        let ol = if l < i { l } else { l + 1 };
        assert(g[k] == f[ok]);
        assert(g[l] == f[ol]);
        assert(!(f[ok].has(s) && f[ol].has(s)));
    }
    assert forall|s: u8| forest_has(f, s) == (forest_has(g, s) || f[i].has(s)) by {
        if forest_has(f, s) {
            let j = choose|j: int| 0 <= j < f.len() && #[trigger] f[j].has(s);
            if j < i {
                assert(g[j] == f[j]);
            } else if j > i {
                assert(g[j - 1] == f[j]);
            }
        }
        if forest_has(g, s) {
            let k = choose|k: int| 0 <= k < g.len() && #[trigger] g[k].has(s);
            let o = if k < i { k } else { k + 1 };
            assert(g[k] == f[o]);
        }
    }
    assert forall|s: u8| f[i].has(s) implies !forest_has(g, s) by {
        if forest_has(g, s) {
            let k = choose|k: int| 0 <= k < g.len() && #[trigger] g[k].has(s);
            let o = if k < i { k } else { k + 1 };
            assert(g[k] == f[o]);
            assert(!(f[o].has(s) && f[i].has(s)));
        }
    }
}

/// The index of a tree of least frequency, the first such one.
fn min_index(f: &Vec<HuffmanNode>) -> (r: usize)
    requires
        f@.len() > 0,
    ensures
        r < f@.len(),
        forall|k: int| 0 <= k < f@.len() ==> f@[r as int].freq() <= #[trigger] f@[k].freq(),
        forall|k: int| 0 <= k < r ==> f@[r as int].freq() < #[trigger] f@[k].freq(),
        r == first_min(f@),
{
    let mut best: usize = 0;
    let mut best_freq = f[0].frequency();
    let mut k: usize = 1;
    while k < f.len()
        invariant
            1 <= k <= f@.len(),
            best < k,
            best_freq == f@[best as int].freq(),
            forall|j: int| 0 <= j < k ==> best_freq <= #[trigger] f@[j].freq(),
            forall|j: int| 0 <= j < best ==> best_freq < #[trigger] f@[j].freq(),
        decreases f@.len() - k,
    {
        let fk = f[k].frequency();
        if fk < best_freq {
            best = k;
            best_freq = fk;
        }
        k = k + 1;
    }
    proof {
        lemma_first_min(f@, best as int);
    }
    best
}

/// Builds the Huffman tree of `data`: one leaf per distinct byte, in
/// increasing order of symbol, then two trees of least frequency (the first
/// such ones) merged at a time, the first taken becoming the left child, until
/// one tree is left. Empty input has no tree.
pub fn build_huffman_tree(data: &Vec<u8>) -> (r: Option<HuffmanNode>)
    ensures
        r.is_none() <==> data@.len() == 0,
        r matches Some(t) ==> t == huffman_tree_of(data@),
        r matches Some(t) ==> t.wf(),
        r matches Some(t) ==> forall|s: u8| #[trigger] t.has(s) <==> data@.contains(s),
        r matches Some(t) ==> t.freq() == data@.len(),
{
    if data.len() == 0 {
        return None;
    }
    let table = frequency_table(data);
    let mut forest: Vec<HuffmanNode> = Vec::new();
    let mut k: usize = 0;
    while k < table.len()
        invariant
            k <= table@.len(),
            forest@.len() == k,
            forall|i: int|
                0 <= i < k ==> #[trigger] forest@[i] == (HuffmanNode::Leaf {
                    frequency: table@[i].1,
                    symbol: table@[i].0,
                }),
        decreases table@.len() - k,
    {
        let (symbol, frequency) = table[k];
        forest.push(HuffmanNode::Leaf { frequency, symbol });
        k = k + 1;
    }
    let ghost leaves = leaf_forest(table@);
    assert(forest@ == leaves);
    proof {
        let f = forest@;
        assert forall|i: int| 0 <= i < f.len() implies #[trigger] f[i].wf() && f[i].freq() == weight(data@, f[i]) by {
            lemma_weight_leaf(data@, f[i], table@[i].0);
        }
        assert forall|i: int, j: int, s: u8|
            0 <= i < f.len() && 0 <= j < f.len() && i != j implies !(#[trigger] f[i].has(s)
                && #[trigger] f[j].has(s)) by {
            if i < j {
                assert(table@[i].0 < table@[j].0);
            } else {
                assert(table@[j].0 < table@[i].0);
            }
        }
        assert forall|s: u8| forest_has(f, s) <==> data@.contains(s) by {
            if forest_has(f, s) {
                let i = choose|i: int| 0 <= i < f.len() && #[trigger] f[i].has(s);
                assert(table@[i].0 == s);
            }
            if data@.contains(s) {
                let i = choose|i: int| 0 <= i < table@.len() && #[trigger] table@[i].0 == s;
                assert(f[i].has(s));
            }
        }
    }
    proof {
        assert(data@.contains(data@[0]));
        assert(forest_has(forest@, data@[0]));
    }
    while forest.len() > 1
        invariant
            forest@.len() >= 1,
            forest_ok(forest@, data@),
            forall|s: u8| forest_has(forest@, s) <==> data@.contains(s),
            merge_all(forest@, forest@.len()) == merge_all(leaves, leaves.len()),
            leaves == leaf_forest(alphabet_counts(data@, 256)),
        decreases forest@.len(),
    {
        let ghost f0 = forest@;
        let ia = min_index(&forest);
        let a = forest.remove(ia);
        proof {
            lemma_forest_remove(f0, data@, ia as int);
        }
        let ghost f1 = forest@;
        let ib = min_index(&forest);
        let b = forest.remove(ib);
        proof {
            lemma_forest_remove(f1, data@, ib as int);
        }
        let ghost f2 = forest@;
        let ghost m0 = HuffmanNode::Internal {
            frequency: 0,
            left: Box::new(a),
            right: Box::new(b),
        };
        proof {
            assert forall|s: u8| !(#[trigger] a.has(s) && b.has(s)) by {
                if a.has(s) && b.has(s) {
                    assert(forest_has(f1, s)) by {
                        assert(f1[ib as int].has(s));
                    }
                }
            }
            lemma_weight_disjoint(data@, a, b, m0);
            assert(f0[ia as int] == a && f1[ib as int] == b);
            assert(f0[ia as int].wf() && f1[ib as int].wf());
            assert(data@.len() == data.len());
        }
        let frequency = a.frequency() + b.frequency();
        let m = HuffmanNode::Internal { frequency, left: Box::new(a), right: Box::new(b) };
        proof {
            assert(forall|s: u8| #[trigger] m.has(s) == m0.has(s));
            lemma_weight_disjoint(data@, a, b, m);
            assert(f0[ia as int].wf() && f1[ib as int].wf());
            assert(f0[ia as int].freq() == weight(data@, a));
            assert(f1[ib as int].freq() == weight(data@, b));
            assert(m.wf());
        }
        forest.push(m);
        proof {
            let f3 = forest@;
            assert(f3 == merge_step(f0));
            assert(merge_all(f0, f0.len()) == merge_all(f3, f3.len()));
            assert(f3[f3.len() - 1] == m);
            assert forall|i: int| 0 <= i < f3.len() implies #[trigger] f3[i].wf() && f3[i].freq() == weight(data@, f3[i]) by {
                if i < f2.len() {
                    assert(f3[i] == f2[i]);
                }
            }
            assert forall|i: int, j: int, s: u8|
                0 <= i < f3.len() && 0 <= j < f3.len() && i != j implies !(#[trigger] f3[i].has(s)
                    && #[trigger] f3[j].has(s)) by {
                if i < f2.len() && j < f2.len() {
                    assert(f3[i] == f2[i] && f3[j] == f2[j]);
                } else if i < f2.len() {
                    assert(f3[i] == f2[i]);
                    if f3[i].has(s) && m.has(s) {
                        assert(forest_has(f2, s));
                        assert(forest_has(f1, s));
                    }
                } else {
                    assert(f3[j] == f2[j]);
                    if f3[j].has(s) && m.has(s) {
                        assert(forest_has(f2, s));
                        assert(forest_has(f1, s));
                    }
                }
            }
            assert forall|s: u8| forest_has(f3, s) <==> data@.contains(s) by {
                if forest_has(f2, s) {
                    let k = choose|k: int| 0 <= k < f2.len() && #[trigger] f2[k].has(s);
                    assert(f3[k] == f2[k]);
                }
                if forest_has(f3, s) {
                    let k = choose|k: int| 0 <= k < f3.len() && #[trigger] f3[k].has(s);
                    if k < f2.len() {
                        assert(f3[k] == f2[k]);
                    }
                }
                if m.has(s) {
                    assert(f3[f3.len() - 1].has(s));
                }
            }
        }
    }
    let ghost fl = forest@;
    let t = forest.remove(0);
    proof {
        assert(fl[0] == t);
        assert(fl.len() == 1);
        assert(merge_all(fl, 1) == t);
        assert(merge_all(fl, fl.len()) == merge_all(leaves, leaves.len()));
        assert(t == huffman_tree_of(data@));
        assert forall|s: u8| #[trigger] t.has(s) <==> data@.contains(s) by {
            if t.has(s) {
                assert(fl[0].has(s));
            }
        }
        lemma_weight_full(data@, t);
        assert(fl[0].wf());
        assert(t.freq() == weight(data@, t));
    }
    Some(t)
}

} // verus!
