use vstd::prelude::*;

use crate::tree::HuffmanNode;

verus! {

/// One row of a code table: a symbol and its bit path (`false` = left,
/// `true` = right).
pub struct CodeEntry {
    pub symbol: u8,
    pub path: Vec<bool>,
}

impl View for CodeEntry {
    type V = (u8, Seq<bool>);

    open spec fn view(&self) -> (u8, Seq<bool>) {
        (self.symbol, self.path@)
    }
}

/// The rows of a code table, as `(symbol, path)` pairs.
pub open spec fn table_view(t: Seq<CodeEntry>) -> Seq<(u8, Seq<bool>)> {
    t.map_values(|e: CodeEntry| e@)
}

/// The rows that `node` yields when its root sits at `prefix`: leaves from
/// left to right, each with the path that leads to it.
pub open spec fn codes(node: HuffmanNode, prefix: Seq<bool>) -> Seq<(u8, Seq<bool>)>
    decreases node,
{
    match node {
        HuffmanNode::Leaf { symbol, .. } => seq![(symbol, prefix)],
        HuffmanNode::Internal { left, right, .. } => codes(*left, prefix.push(false)) + codes(
            *right,
            prefix.push(true),
        ),
    }
}

/// `p` is a prefix of `q` (equal paths included).
pub open spec fn is_prefix(p: Seq<bool>, q: Seq<bool>) -> bool {
    p.len() <= q.len() && forall|k: int| 0 <= k < p.len() ==> #[trigger] p[k] == q[k]
}

/// No row's path is a prefix of another row's path.
pub open spec fn prefix_free(t: Seq<(u8, Seq<bool>)>) -> bool {
    forall|i: int, j: int|
        0 <= i < t.len() && 0 <= j < t.len() && i != j ==> !is_prefix(#[trigger] t[i].1, #[trigger] t[j].1)
}

/// No symbol has two rows.
pub open spec fn distinct_symbols(t: Seq<(u8, Seq<bool>)>) -> bool {
    forall|i: int, j: int|
        0 <= i < t.len() && 0 <= j < t.len() && i != j ==> #[trigger] t[i].0 != #[trigger] t[j].0
}

/// Some row holds symbol `s`.
pub open spec fn has_symbol(t: Seq<(u8, Seq<bool>)>, s: u8) -> bool {
    exists|i: int| 0 <= i < t.len() && #[trigger] t[i].0 == s
}

/// The rows of a well-formed tree are prefix-free, one per symbol of the tree,
/// and each path extends `prefix` by fewer bits than there are rows.
pub proof fn lemma_codes(node: HuffmanNode, prefix: Seq<bool>)
    requires
        node.wf(),
    ensures
        prefix_free(codes(node, prefix)),
        distinct_symbols(codes(node, prefix)),
        forall|s: u8| has_symbol(codes(node, prefix), s) <==> #[trigger] node.has(s),
        codes(node, prefix).len() >= 1,
        forall|i: int|
            0 <= i < codes(node, prefix).len() ==> {
                &&& prefix.len() <= #[trigger] codes(node, prefix)[i].1.len() < prefix.len() + codes(
                    node,
                    prefix,
                ).len()
                &&& forall|k: int| 0 <= k < prefix.len() ==> codes(node, prefix)[i].1[k] == prefix[k]
            },
    decreases node,
{
    match node {
        HuffmanNode::Leaf { .. } => {
            let c = codes(node, prefix);
            assert(c.len() == 1);
            assert forall|i: int, j: int|
                0 <= i < c.len() && 0 <= j < c.len() && i != j implies #[trigger] c[i].0
                != #[trigger] c[j].0 by {}
            assert forall|s: u8| has_symbol(c, s) <==> #[trigger] node.has(s) by {
                if node.has(s) {
                    assert(c[0].0 == s);
                }
            }
        },
        HuffmanNode::Internal { left, right, .. } => {
            let lp = prefix.push(false);
            let rp = prefix.push(true);
            lemma_codes(*left, lp);
            lemma_codes(*right, rp);
            let l = codes(*left, lp);
            let r = codes(*right, rp);
            let c = codes(node, prefix);
            assert(c == l + r);
            let n = l.len();
            assert forall|i: int|
                0 <= i < c.len() implies {
                &&& prefix.len() <= #[trigger] c[i].1.len() < prefix.len() + c.len()
                &&& forall|k: int| 0 <= k < prefix.len() ==> c[i].1[k] == prefix[k]
            } by {
                if i < n {
                    assert(c[i] == l[i]);
                    assert(lp.len() <= l[i].1.len());
                    assert forall|k: int| 0 <= k < prefix.len() implies c[i].1[k] == prefix[k] by {
                        assert(l[i].1[k] == lp[k]);
                    }
                } else {
                    assert(c[i] == r[i - n]);
                    assert(rp.len() <= r[i - n].1.len());
                    assert forall|k: int| 0 <= k < prefix.len() implies c[i].1[k] == prefix[k] by {
                        assert(r[i - n].1[k] == rp[k]);
                    }
                }
            }
            assert forall|i: int, j: int|
                0 <= i < c.len() && 0 <= j < c.len() && i != j implies !is_prefix(
                #[trigger] c[i].1,
                #[trigger] c[j].1,
            ) && c[i].0 != c[j].0 by {
                let d = prefix.len() as int;
                if i < n && j < n {
                    assert(c[i] == l[i] && c[j] == l[j]);
                } else if i >= n && j >= n {
                    assert(c[i] == r[i - n] && c[j] == r[j - n]);
                } else if i < n {
                    assert(c[i] == l[i] && c[j] == r[j - n]);
                    assert(lp.len() <= l[i].1.len() && rp.len() <= r[j - n].1.len());
                    assert(l[i].1[d] == lp[d]);
                    assert(r[j - n].1[d] == rp[d]);
                    assert(has_symbol(l, l[i].0));
                    assert(has_symbol(r, r[j - n].0));
                    assert(left.has(l[i].0) && right.has(r[j - n].0));
                } else {
                    assert(c[i] == r[i - n] && c[j] == l[j]);
                    assert(lp.len() <= l[j].1.len() && rp.len() <= r[i - n].1.len());
                    assert(l[j].1[d] == lp[d]);
                    assert(r[i - n].1[d] == rp[d]);
                    assert(has_symbol(l, l[j].0));
                    assert(has_symbol(r, r[i - n].0));
                    assert(left.has(l[j].0) && right.has(r[i - n].0));
                }
            }
            assert forall|i: int, j: int|
                0 <= i < c.len() && 0 <= j < c.len() && i != j implies #[trigger] c[i].0
                != #[trigger] c[j].0 by {
                assert(!is_prefix(c[i].1, c[j].1));
            }
            assert forall|s: u8| has_symbol(c, s) <==> #[trigger] node.has(s) by {
                if has_symbol(c, s) {
                    let i = choose|i: int| 0 <= i < c.len() && #[trigger] c[i].0 == s;
                    if i < n {
                        assert(l[i] == c[i]);
                        assert(has_symbol(l, s));
                    } else {
                        assert(r[i - n] == c[i]);
                        assert(has_symbol(r, s));
                    }
                }
                if left.has(s) {
                    let i = choose|i: int| 0 <= i < l.len() && #[trigger] l[i].0 == s;
                    assert(c[i] == l[i]);
                }
                if right.has(s) {
                    let i = choose|i: int| 0 <= i < r.len() && #[trigger] r[i].0 == s;
                    assert(c[i + n] == r[i]);
                }
            }
        },
    }
}

/// A table whose symbols are distinct bytes has at most 256 rows.
pub proof fn lemma_table_len(t: Seq<(u8, Seq<bool>)>)
    requires
        distinct_symbols(t),
    ensures
        t.len() <= 256,
{
    lemma_distinct_below(t, 256);
}

proof fn lemma_distinct_below(t: Seq<(u8, Seq<bool>)>, n: nat)
    requires
        distinct_symbols(t),
        forall|i: int| 0 <= i < t.len() ==> (#[trigger] t[i].0) < n,
    ensures
        t.len() <= n,
    decreases n,
{
    if n == 0 {
        if t.len() > 0 {
            assert(t[0].0 < 0);
        }
    } else if has_symbol(t, (n - 1) as u8) {
        let i = choose|i: int| 0 <= i < t.len() && #[trigger] t[i].0 == (n - 1) as u8;
        let u = t.remove(i);
        assert forall|k: int| 0 <= k < u.len() implies (#[trigger] u[k].0) < n - 1 by {
            let o = if k < i { k } else { k + 1 };
            assert(u[k] == t[o]);
            assert(t[o].0 != t[i].0);
        }
        assert forall|a: int, b: int|
            0 <= a < u.len() && 0 <= b < u.len() && a != b implies #[trigger] u[a].0
            != #[trigger] u[b].0 by {
            let oa = if a < i { a } else { a + 1 };
            let ob = if b < i { b } else { b + 1 };
            assert(u[a] == t[oa] && u[b] == t[ob]);
        }
        lemma_distinct_below(u, (n - 1) as nat);
    } else {
        assert forall|k: int| 0 <= k < t.len() implies (#[trigger] t[k].0) < n - 1 by {
            if t[k].0 == n - 1 {
                assert(has_symbol(t, (n - 1) as u8));
            }
        }
        lemma_distinct_below(t, (n - 1) as nat);
    }
}

/// A copy of a bit path.
fn copy_path(p: &Vec<bool>) -> (r: Vec<bool>)
    ensures
        r@ == p@,
{
    let mut r: Vec<bool> = Vec::new();
    let mut i: usize = 0;
    while i < p.len()
        invariant
            i <= p@.len(),
            r@ == p@.subrange(0, i as int),
        decreases p@.len() - i,
    {
        r.push(p[i]);
        i = i + 1;
        assert(r@ == p@.subrange(0, i as int));
    }
    assert(p@.subrange(0, p@.len() as int) == p@);
    r
}

fn collect_codes(node: &HuffmanNode, prefix: &Vec<bool>, out: &mut Vec<CodeEntry>)
    requires
        node.wf(),
        prefix@.len() + codes(*node, prefix@).len() <= 256,
    ensures
        table_view(final(out)@) == table_view(old(out)@) + codes(*node, prefix@),
    decreases node,
{
    match node {
        HuffmanNode::Leaf { symbol, .. } => {
            let ghost before = table_view(out@);
            out.push(CodeEntry { symbol: *symbol, path: copy_path(prefix) });
            assert(table_view(out@) == before + codes(*node, prefix@));
        },
        HuffmanNode::Internal { left, right, .. } => {
            proof {
                lemma_codes(*node, prefix@);
                lemma_codes(**left, prefix@.push(false));
                lemma_codes(**right, prefix@.push(true));
            }
            let ghost before = table_view(out@);
            let mut lp = copy_path(prefix);
            lp.push(false);
            collect_codes(left, &lp, out);
            let mut rp = copy_path(prefix);
            rp.push(true);
            collect_codes(right, &rp, out);
            assert(table_view(out@) == before + codes(*node, prefix@));
        },
    }
}

/// The code table of a tree: one row per leaf, from left to right, each with
/// the path from the root to that leaf. A tree that is a single leaf gives
/// that symbol the empty path.
pub fn code_table(tree: &HuffmanNode) -> (r: Vec<CodeEntry>)
    requires
        tree.wf(),
    ensures
        table_view(r@) == codes(*tree, Seq::<bool>::empty()),
        prefix_free(table_view(r@)),
        distinct_symbols(table_view(r@)),
        forall|s: u8| has_symbol(table_view(r@), s) <==> #[trigger] tree.has(s),
{
    proof {
        lemma_codes(*tree, Seq::<bool>::empty());
        lemma_table_len(codes(*tree, Seq::<bool>::empty()));
    }
    let mut out: Vec<CodeEntry> = Vec::new();
    let prefix: Vec<bool> = Vec::new();
    collect_codes(tree, &prefix, &mut out);
    assert(table_view(out@) == Seq::<(u8, Seq<bool>)>::empty() + codes(*tree, prefix@));
    assert(Seq::<(u8, Seq<bool>)>::empty() + codes(*tree, prefix@) == codes(*tree, prefix@));
    out
}

} // verus!
