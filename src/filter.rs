use crate::node::{nodes_view, strings_view, Node, NodeView};
use vstd::prelude::*;

verus! {

/// Every predicate is total over nodes.
pub open spec fn all_total<F: Fn(&Node) -> bool>(filters: Seq<F>) -> bool {
    forall|j: int, n: Node| 0 <= j < filters.len() ==> #[trigger] filters[j].requires((&n,))
}

/// Every predicate answers by the content of a node alone: on two nodes with
/// the same view it never answers both yes and no.
pub open spec fn content_determined<F: Fn(&Node) -> bool>(filters: Seq<F>) -> bool {
    forall|j: int, n1: Node, n2: Node|
        0 <= j < filters.len() && n1@ == n2@ && #[trigger] filters[j].ensures((&n1,), true)
            ==> !#[trigger] filters[j].ensures((&n2,), false)
}

/// No predicate rejects a node with content `v`.
pub open spec fn passes_all<F: Fn(&Node) -> bool>(filters: Seq<F>, v: NodeView) -> bool {
    forall|j: int, n: Node|
        0 <= j < filters.len() && n@ == v ==> !#[trigger] filters[j].ensures((&n,), false)
}

/// The nodes of `vs` that pass every predicate, in their original order.
pub open spec fn selected<F: Fn(&Node) -> bool>(vs: Seq<NodeView>, filters: Seq<F>) -> Seq<
    NodeView,
> {
    vs.filter(|v: NodeView| passes_all(filters, v))
}

/// `idx` picks, in increasing order, the positions of `b` whose elements
/// make up `a`.
pub open spec fn picks<A>(a: Seq<A>, b: Seq<A>, idx: Seq<int>) -> bool {
    &&& idx.len() == a.len()
    &&& forall|k: int| 0 <= k < idx.len() ==> 0 <= #[trigger] idx[k] < b.len()
    &&& forall|k: int| 0 <= k < idx.len() ==> a[k] == b[#[trigger] idx[k]]
    &&& forall|k1: int, k2: int|
        0 <= k1 < k2 < idx.len() ==> #[trigger] idx[k1] < #[trigger] idx[k2]
}

/// `a` is `b` with some elements left out and the rest kept in order.
pub open spec fn is_subsequence<A>(a: Seq<A>, b: Seq<A>) -> bool {
    exists|idx: Seq<int>| picks(a, b, idx)
}

/// The node holds one of the `wanted` flags.
pub open spec fn has_flag_among(v: NodeView, wanted: Seq<Seq<char>>) -> bool {
    exists|j: int, k: int|
        0 <= j < wanted.len() && 0 <= k < v.flags.len() && #[trigger] wanted[j]
            == #[trigger] v.flags[k]
}

/// The node has captured some output.
pub open spec fn output_nonempty(v: NodeView) -> bool {
    v.output.len() > 0
}

/// Keeps the nodes that every predicate accepts, in their original order.
pub fn filter_nodes<F: Fn(&Node) -> bool>(nodes: &[Node], filters: &[F]) -> (r: Vec<Node>)
    requires
        all_total(filters@),
        content_determined(filters@),
    ensures
        nodes_view(r@) == selected(nodes_view(nodes@), filters@),
{
    let mut r: Vec<Node> = Vec::new();
    let mut i: usize = 0;
    proof {
        assert(nodes_view(nodes@.subrange(0, 0)) =~= Seq::<NodeView>::empty());
        assert(nodes_view(r@) =~= Seq::<NodeView>::empty());
    }
    while i < nodes.len()
        invariant
            i <= nodes.len(),
            all_total(filters@),
            content_determined(filters@),
            nodes_view(r@) == selected(nodes_view(nodes@.subrange(0, i as int)), filters@),
        decreases nodes.len() - i,
    {
        let node = &nodes[i];
        let mut keep = true;
        let mut j: usize = 0;
        while j < filters.len() && keep
            invariant
                j <= filters.len(),
                all_total(filters@),
                keep ==> forall|k: int| 0 <= k < j ==> filters@[k].ensures((node,), true),
                !keep ==> exists|k: int| 0 <= k < j && filters@[k].ensures((node,), false),
            decreases filters.len() - j,
        {
            let f = &filters[j];
            assert(f.requires((node,)));
            keep = f(node);
            j += 1;
        }
        proof {
            if keep {
                assert forall|k: int, n: Node|
                    0 <= k < filters@.len() && n@ == node@ implies !#[trigger] filters@[k].ensures(
                    (&n,),
                    false,
                ) by {
                    assert(filters@[k].ensures((node,), true));
                }
            }
            assert(keep == passes_all(filters@, node@));
        }
        let ghost prior = r@;
        if keep {
            r.push(node.duplicate());
        }
        proof {
            reveal(Seq::filter);
            let s = nodes_view(nodes@.subrange(0, i + 1));
            assert(s.drop_last() =~= nodes_view(nodes@.subrange(0, i as int)));
            assert(s.last() == node@);
            if keep {
                assert(nodes_view(r@) =~= nodes_view(prior).push(node@));
            } else {
                assert(nodes_view(r@) =~= nodes_view(prior));
            }
        }
        i += 1;
    }
    proof {
        assert(nodes@.subrange(0, nodes@.len() as int) =~= nodes@);
    }
    r
}

/// The node holds one of the `flags`.
pub fn has_matching_flags(node: &Node, flags: &[String]) -> (r: bool)
    ensures
        r == has_flag_among(node@, strings_view(flags@)),
{
    let mut j: usize = 0;
    while j < flags.len()
        invariant
            j <= flags.len(),
            forall|j2: int, k: int|
                0 <= j2 < j && 0 <= k < node.flags@.len() ==> flags@[j2]@ != node.flags@[k]@,
        decreases flags.len() - j,
    {
        let mut k: usize = 0;
        while k < node.flags.len()
            invariant
                j < flags.len(),
                k <= node.flags.len(),
                forall|k2: int| 0 <= k2 < k ==> flags@[j as int]@ != node.flags@[k2]@,
            decreases node.flags.len() - k,
        {
            if flags[j] == node.flags[k] {
                proof {
                    let w = strings_view(flags@);
                    let h = node@.flags;
                    assert(w[j as int] == h[k as int]);
                }
                return true;
            }
            k += 1;
        }
        j += 1;
    }
    proof {
        let w = strings_view(flags@);
        let h = node@.flags;
        assert forall|a: int, b: int| 0 <= a < w.len() && 0 <= b < h.len() implies #[trigger] w[a]
            != #[trigger] h[b] by {
            assert(flags@[a]@ != node.flags@[b]@);
        }
    }
    false
}

/// The node has captured some output; a lone line feed counts.
pub fn has_output(node: &Node) -> (r: bool)
    ensures
        r == output_nonempty(node@),
{
    !node.output.as_str().is_empty()
}

proof fn lemma_filter_is_subsequence<A>(s: Seq<A>, p: spec_fn(A) -> bool)
    ensures
        is_subsequence(s.filter(p), s),
    decreases s.len(),
{
    reveal(Seq::filter);
    if s.len() == 0 {
        assert(picks(s.filter(p), s, Seq::<int>::empty()));
    } else {
        let rest = s.drop_last();
        lemma_filter_is_subsequence(rest, p);
        let sub = rest.filter(p);
        let idx0 = choose|idx: Seq<int>| picks(sub, rest, idx);
        if p(s.last()) {
            let idx = idx0.push(s.len() - 1);
            let a = s.filter(p);
            assert(a == sub.push(s.last()));
            assert forall|k: int| 0 <= k < idx.len() implies a[k] == s[#[trigger] idx[k]] by {
                if k < idx0.len() {
                    assert(idx[k] == idx0[k]);
                }
            }
            assert forall|k1: int, k2: int| 0 <= k1 < k2 < idx.len() implies #[trigger] idx[k1]
                < #[trigger] idx[k2] by {
                if k2 < idx0.len() {
                    assert(idx[k1] == idx0[k1] && idx[k2] == idx0[k2]);
                } else {
                    assert(idx[k1] == idx0[k1]);
                }
            }
            assert forall|k: int| 0 <= k < idx.len() implies 0 <= #[trigger] idx[k] < s.len() by {
                if k < idx0.len() {
                    assert(idx[k] == idx0[k]);
                }
            }
            assert(picks(a, s, idx));
        } else {
            assert forall|k: int| 0 <= k < idx0.len() implies s.filter(p)[k] == s[
                #[trigger] idx0[k]
            ] by {
                assert(rest[idx0[k]] == s[idx0[k]]);
            }
            assert(picks(s.filter(p), s, idx0));
        }
    }
}

proof fn lemma_filter_twice<A>(s: Seq<A>, p: spec_fn(A) -> bool)
    ensures
        s.filter(p).filter(p) == s.filter(p),
    decreases s.len(),
{
    reveal(Seq::filter);
    if s.len() > 0 {
        let rest = s.drop_last();
        lemma_filter_twice(rest, p);
        if p(s.last()) {
            let a = rest.filter(p).push(s.last());
            assert(a.drop_last() =~= rest.filter(p));
        }
    }
}

proof fn lemma_filter_keeps_all<A>(s: Seq<A>, p: spec_fn(A) -> bool)
    requires
        forall|k: int| 0 <= k < s.len() ==> p(#[trigger] s[k]),
    ensures
        s.filter(p) == s,
    decreases s.len(),
{
    reveal(Seq::filter);
    if s.len() > 0 {
        let rest = s.drop_last();
        assert forall|k: int| 0 <= k < rest.len() implies p(#[trigger] rest[k]) by {
            assert(rest[k] == s[k]);
        }
        lemma_filter_keeps_all(rest, p);
        assert(p(s[s.len() - 1]));
        assert(rest.push(s.last()) =~= s);
    }
}

/// Filtering never reorders: what it keeps is a subsequence of its input.
pub proof fn lemma_selected_is_subsequence<F: Fn(&Node) -> bool>(
    vs: Seq<NodeView>,
    filters: Seq<F>,
)
    ensures
        is_subsequence(selected(vs, filters), vs),
{
    lemma_filter_is_subsequence(vs, |v: NodeView| passes_all(filters, v));
}

/// Filtering again with the same predicates changes nothing.
pub proof fn lemma_selected_idempotent<F: Fn(&Node) -> bool>(vs: Seq<NodeView>, filters: Seq<F>)
    ensures
        selected(selected(vs, filters), filters) == selected(vs, filters),
{
    lemma_filter_twice(vs, |v: NodeView| passes_all(filters, v));
}

/// With no predicates every node is kept.
pub proof fn lemma_selected_no_filters<F: Fn(&Node) -> bool>(vs: Seq<NodeView>, filters: Seq<F>)
    requires
        filters.len() == 0,
    ensures
        selected(vs, filters) == vs,
{
    lemma_filter_keeps_all(vs, |v: NodeView| passes_all(filters, v));
}

} // verus!
