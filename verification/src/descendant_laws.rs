//! What holds of the descendants of a block.
use crate::lineage;
use crate::summaries_dag;
use crate::summaries_dag::DAGBlockSummary;
use crate::summaries_dag_laws;
use crate::types::Hash256;
use vstd::prelude::*;

verus! {

/// The parent of each listed block.
pub open spec fn parents_of_list(blocks: Seq<(Hash256, DAGBlockSummary)>) -> Map<Hash256, Hash256> {
    summaries_dag::last_values(blocks).map_values(|b: DAGBlockSummary| b.parent_root)
}

/// Whether a walk of one or more known steps leads from `node` to `root`.
pub open spec fn descends_from(parents: Map<Hash256, Hash256>, node: Hash256, root: Hash256) -> bool {
    exists|n: nat|
        n > 0 && lineage::known_for(parents, node, n) && #[trigger] lineage::nth_ancestor(
            parents,
            node,
            n,
        ) == root
}

proof fn lemma_children_are_children(
    blocks: Seq<(Hash256, DAGBlockSummary)>,
    parent: Hash256,
    child: Hash256,
)
    ensures
        summaries_dag::children_in(blocks, parent).contains(child) <==> exists|i: int|
            0 <= i < blocks.len() && (#[trigger] blocks[i]).0 == child && blocks[i].1.parent_root == parent,
    decreases blocks.len(),
{
    let kids = summaries_dag::children_in(blocks, parent);
    if blocks.len() > 0 {
        let short = blocks.drop_last();
        let earlier = summaries_dag::children_in(short, parent);
        lemma_children_are_children(short, parent, child);
        if kids.contains(child) {
            let k = choose|k: int| 0 <= k < kids.len() && kids[k] == child;
            if k < earlier.len() {
                assert(earlier[k] == child);
                let i = choose|i: int|
                    0 <= i < short.len() && (#[trigger] short[i]).0 == child && short[i].1.parent_root
                        == parent;
                assert(blocks[i] == short[i]);
            } else {
                assert(blocks[blocks.len() - 1].0 == child);
            }
        }
        if exists|i: int|
            0 <= i < blocks.len() && (#[trigger] blocks[i]).0 == child && blocks[i].1.parent_root == parent {
            let i = choose|i: int|
                0 <= i < blocks.len() && (#[trigger] blocks[i]).0 == child && blocks[i].1.parent_root
                    == parent;
            if i < short.len() {
                assert(short[i] == blocks[i]);
                let k = choose|k: int| 0 <= k < earlier.len() && earlier[k] == child;
                assert(kids[k] == child);
            } else {
                assert(kids[kids.len() - 1] == child);
            }
        }
    }
}

proof fn lemma_with_descendants_contains(
    children: Map<Hash256, Seq<Hash256>>,
    roots: Seq<Hash256>,
    height: nat,
    node: Hash256,
)
    ensures
        summaries_dag::with_descendants(children, roots, height).contains(node) <==> exists|i: int|
            0 <= i < roots.len() && ((#[trigger] roots[i]) == node || (height > 0
                && summaries_dag::with_descendants(
                children,
                children[roots[i]],
                (height - 1) as nat,
            ).contains(node))),
    decreases roots.len(),
{
    let all = summaries_dag::with_descendants(children, roots, height);
    if roots.len() > 0 {
        let short = roots.drop_last();
        let last = roots.last();
        let earlier = summaries_dag::with_descendants(children, short, height);
        let below = if height == 0 {
            Seq::empty()
        } else {
            summaries_dag::with_descendants(children, children[last], (height - 1) as nat)
        };
        lemma_with_descendants_contains(children, short, height, node);
        assert(all == earlier + seq![last] + below);
        assert(all.contains(node) <==> earlier.contains(node) || last == node || below.contains(node)) by {
            if all.contains(node) {
                let k = choose|k: int| 0 <= k < all.len() && all[k] == node;
                if k < earlier.len() {
                    assert(earlier[k] == node);
                } else if k > earlier.len() {
                    assert(below[k - earlier.len() - 1] == node);
                }
            }
            if earlier.contains(node) {
                let k = choose|k: int| 0 <= k < earlier.len() && earlier[k] == node;
                assert(all[k] == node);
            }
            if last == node {
                assert(all[earlier.len() as int] == node);
            }
            if below.contains(node) {
                let k = choose|k: int| 0 <= k < below.len() && below[k] == node;
                assert(all[earlier.len() + 1 + k] == node);
            }
        }
        assert forall|i: int| 0 <= i < short.len() implies #[trigger] short[i] == roots[i] by {}
        if earlier.contains(node) {
            let i = choose|i: int|
                0 <= i < short.len() && ((#[trigger] short[i]) == node || (height > 0
                    && summaries_dag::with_descendants(
                    children,
                    children[short[i]],
                    (height - 1) as nat,
                ).contains(node)));
            assert(roots[i] == short[i]);
        }
        if last == node || below.contains(node) {
            assert(roots[roots.len() - 1] == last);
        }
        if exists|i: int|
            0 <= i < roots.len() && ((#[trigger] roots[i]) == node || (height > 0
                && summaries_dag::with_descendants(
                children,
                children[roots[i]],
                (height - 1) as nat,
            ).contains(node))) {
            let i = choose|i: int|
                0 <= i < roots.len() && ((#[trigger] roots[i]) == node || (height > 0
                    && summaries_dag::with_descendants(
                    children,
                    children[roots[i]],
                    (height - 1) as nat,
                ).contains(node)));
            if i < short.len() {
                assert(short[i] == roots[i]);
            }
        }
    }
}

/// The descendants of a root are exactly the blocks whose ancestors lead to it.
pub proof fn law_descendants_are_what_descends(
    blocks: Seq<(Hash256, DAGBlockSummary)>,
    root: Hash256,
    height: nat,
    node: Hash256,
)
    requires
        summaries_dag_laws::distinct_roots(blocks),
        summaries_dag::mentioned(blocks, root),
        summaries_dag::height_at_most(summaries_dag::children_of_list(blocks), root, height),
    ensures
        summaries_dag::descendants(
            summaries_dag::children_of_list(blocks),
            root,
            height,
        ).contains(node) <==> descends_from(parents_of_list(blocks), node, root),
    decreases height,
{
    let children = summaries_dag::children_of_list(blocks);
    let parents = parents_of_list(blocks);
    let kids = children[root];
    let found = summaries_dag::descendants(children, root, height);
    summaries_dag_laws::law_last_values_of_distinct(blocks);
    assert forall|i: int| 0 <= i < kids.len() implies parents.contains_key(#[trigger] kids[i]) && parents[kids[i]]
        == root && summaries_dag::mentioned(blocks, kids[i]) && height > 0 by {
        lemma_children_are_children(blocks, root, kids[i]);
        assert(kids.contains(kids[i]));
        let j = choose|j: int|
            0 <= j < blocks.len() && (#[trigger] blocks[j]).0 == kids[i] && blocks[j].1.parent_root == root;
        assert(summaries_dag::last_values(blocks)[blocks[j].0] == blocks[j].1);
        assert(children[root][i] == kids[i]);
    }
    if height > 0 {
        lemma_with_descendants_contains(children, kids, (height - 1) as nat, node);
    }
    assert forall|i: int| 0 <= i < kids.len() implies summaries_dag::height_at_most(
        children,
        #[trigger] kids[i],
        (height - 1) as nat,
    ) by {
        assert(children[root][i] == kids[i]);
    }
    if found.contains(node) {
        let i = choose|i: int|
            0 <= i < kids.len() && ((#[trigger] kids[i]) == node || (height - 1 > 0
                && summaries_dag::with_descendants(
                children,
                children[kids[i]],
                (height - 2) as nat,
            ).contains(node)));
        let kid = kids[i];
        if kid == node {
            assert(lineage::nth_ancestor(parents, node, 0) == node);
            assert(lineage::nth_ancestor(parents, node, 1) == root);
            assert(lineage::known_for(parents, node, 1));
        } else {
            law_descendants_are_what_descends(blocks, kid, (height - 1) as nat, node);
            assert(summaries_dag::descendants(children, kid, (height - 1) as nat).contains(node));
            let n = choose|n: nat|
                n > 0 && lineage::known_for(parents, node, n) && #[trigger] lineage::nth_ancestor(
                    parents,
                    node,
                    n,
                ) == kid;
            assert(lineage::known_for(parents, node, n + 1));
            assert(lineage::nth_ancestor(parents, node, n + 1) == root);
        }
    }
    if descends_from(parents, node, root) {
        let n = choose|n: nat|
            n > 0 && lineage::known_for(parents, node, n) && #[trigger] lineage::nth_ancestor(
                parents,
                node,
                n,
            ) == root;
        let before = lineage::nth_ancestor(parents, node, (n - 1) as nat);
        assert(parents.contains_key(before));
        assert(parents[before] == root);
        assert(summaries_dag_laws::has_root(blocks, before));
        let j = choose|j: int| 0 <= j < blocks.len() && (#[trigger] blocks[j]).0 == before;
        assert(summaries_dag::last_values(blocks)[blocks[j].0] == blocks[j].1);
        lemma_children_are_children(blocks, root, before);
        assert(kids.contains(before));
        let i = choose|i: int| 0 <= i < kids.len() && kids[i] == before;
        assert(kids[i] == before);
        if n == 1 {
            assert(before == node);
        } else {
            assert(lineage::known_for(parents, node, (n - 1) as nat));
            assert(descends_from(parents, node, before));
            law_descendants_are_what_descends(blocks, before, (height - 1) as nat, node);
            assert(summaries_dag::descendants(children, before, (height - 1) as nat).contains(node));
        }
        assert(found.contains(node));
    }
}

/// Whether a walk of known steps, possibly of none, leads from `node` to `root`.
spec fn comes_from(parents: Map<Hash256, Hash256>, node: Hash256, root: Hash256) -> bool {
    exists|n: nat| comes_in(parents, node, root, n)
}

spec fn comes_in(parents: Map<Hash256, Hash256>, node: Hash256, root: Hash256, n: nat) -> bool {
    lineage::known_for(parents, node, n) && lineage::nth_ancestor(parents, node, n) == root
}

/// Whether no block is listed twice, and none before its parent.
pub open spec fn in_order(parents: Map<Hash256, Hash256>, list: Seq<Hash256>) -> bool {
    &&& list.no_duplicates()
    &&& forall|i: int, j: int|
        0 <= i < list.len() && 0 <= j < list.len() && parents[#[trigger] list[j]] == #[trigger] list[i] ==> i
            < j
}

/// Two children of `top` that are ancestors of one node are the same, unless `top` descends from
/// itself.
proof fn lemma_one_line(
    parents: Map<Hash256, Hash256>,
    node: Hash256,
    a: Hash256,
    b: Hash256,
    top: Hash256,
)
    requires
        comes_from(parents, node, a),
        comes_from(parents, node, b),
        parents.contains_key(a),
        parents.contains_key(b),
        parents[a] == top,
        parents[b] == top,
        !descends_from(parents, top, top),
    ensures
        a == b,
{
    let m = choose|n: nat| comes_in(parents, node, a, n);
    let n = choose|n: nat| comes_in(parents, node, b, n);
    if m < n {
        lemma_two_on_line(parents, node, top, m, n);
    }
    if n < m {
        lemma_two_on_line(parents, node, top, n, m);
    }
}

proof fn lemma_two_on_line(
    parents: Map<Hash256, Hash256>,
    node: Hash256,
    top: Hash256,
    m: nat,
    n: nat,
)
    requires
        m < n,
        lineage::known_for(parents, node, n + 1),
        lineage::nth_ancestor(parents, node, m + 1) == top,
        lineage::nth_ancestor(parents, node, n + 1) == top,
    ensures
        descends_from(parents, top, top),
{
    let k = (n - m) as nat;
    lineage::lemma_nth_ancestor_split(parents, node, m + 1, k);
    assert forall|i: nat| i < k implies parents.contains_key(
        #[trigger] lineage::nth_ancestor(parents, top, i),
    ) by {
        lineage::lemma_nth_ancestor_split(parents, node, m + 1, i);
        assert(parents.contains_key(lineage::nth_ancestor(parents, node, m + 1 + i)));
    }
    assert(lineage::known_for(parents, top, k));
}

/// Where every downward path from a block has an end, the block does not descend from itself.
proof fn lemma_no_self_descent(
    blocks: Seq<(Hash256, DAGBlockSummary)>,
    root: Hash256,
    height: nat,
)
    requires
        summaries_dag_laws::distinct_roots(blocks),
        summaries_dag::mentioned(blocks, root),
        summaries_dag::height_at_most(summaries_dag::children_of_list(blocks), root, height),
    ensures
        !descends_from(parents_of_list(blocks), root, root),
    decreases height,
{
    let parents = parents_of_list(blocks);
    let children = summaries_dag::children_of_list(blocks);
    if descends_from(parents, root, root) {
        let n = choose|n: nat|
            n > 0 && lineage::known_for(parents, root, n) && #[trigger] lineage::nth_ancestor(
                parents,
                root,
                n,
            ) == root;
        let child = lineage::nth_ancestor(parents, root, (n - 1) as nat);
        lemma_parent_is_listed(blocks, child);
        lemma_children_are_children(blocks, root, child);
        let k = choose|k: int| 0 <= k < children[root].len() && children[root][k] == child;
        assert(summaries_dag::height_at_most(children, children[root][k], (height - 1) as nat));
        assert forall|i: nat| i < n implies parents.contains_key(
            #[trigger] lineage::nth_ancestor(parents, child, i),
        ) by {
            lineage::lemma_nth_ancestor_split(parents, root, (n - 1) as nat, i);
            if i > 0 {
                lineage::lemma_nth_ancestor_split(parents, root, n, (i - 1) as nat);
                assert(parents.contains_key(lineage::nth_ancestor(parents, root, (i - 1) as nat)));
            }
        }
        lineage::lemma_nth_ancestor_split(parents, root, (n - 1) as nat, n);
        lineage::lemma_nth_ancestor_split(parents, root, n, (n - 1) as nat);
        assert(lineage::nth_ancestor(parents, child, n) == child);
        assert(descends_from(parents, child, child));
        lemma_no_self_descent(blocks, child, (height - 1) as nat);
    }
}

/// A known block is listed with its parent.
proof fn lemma_parent_is_listed(blocks: Seq<(Hash256, DAGBlockSummary)>, node: Hash256) -> (i: int)
    requires
        summaries_dag_laws::distinct_roots(blocks),
        parents_of_list(blocks).contains_key(node),
    ensures
        0 <= i < blocks.len(),
        blocks[i].0 == node,
        blocks[i].1.parent_root == parents_of_list(blocks)[node],
        summaries_dag::mentioned(blocks, node),
{
    summaries_dag_laws::law_last_values_of_distinct(blocks);
    assert(summaries_dag_laws::has_root(blocks, node));
    let i = choose|i: int| 0 <= i < blocks.len() && (#[trigger] blocks[i]).0 == node;
    assert(summaries_dag::last_values(blocks)[blocks[i].0] == blocks[i].1);
    i
}

/// The children of a block are distinct.
proof fn lemma_children_are_distinct(blocks: Seq<(Hash256, DAGBlockSummary)>, parent: Hash256)
    requires
        summaries_dag_laws::distinct_roots(blocks),
    ensures
        summaries_dag::children_in(blocks, parent).no_duplicates(),
    decreases blocks.len(),
{
    if blocks.len() > 0 {
        let short = blocks.drop_last();
        assert forall|i: int, j: int| 0 <= i < j < short.len() implies (#[trigger] short[i]).0 != (
        #[trigger] short[j]).0 by {
            assert(blocks[i].0 != blocks[j].0);
        }
        lemma_children_are_distinct(short, parent);
        lemma_children_are_children(short, parent, blocks.last().0);
        assert forall|i: int| 0 <= i < short.len() implies (#[trigger] short[i]).0 != blocks.last().0 by {
            assert(blocks[i].0 != blocks[blocks.len() - 1].0);
        }
    }
}

/// The children of a block are known, and have it as their parent.
proof fn lemma_child_facts(blocks: Seq<(Hash256, DAGBlockSummary)>, parent: Hash256, k: int)
    requires
        summaries_dag_laws::distinct_roots(blocks),
        0 <= k < summaries_dag::children_in(blocks, parent).len(),
    ensures
        ({
            let child = summaries_dag::children_in(blocks, parent)[k];
            &&& parents_of_list(blocks).contains_key(child)
            &&& parents_of_list(blocks)[child] == parent
            &&& summaries_dag::mentioned(blocks, child)
        }),
{
    let kids = summaries_dag::children_in(blocks, parent);
    summaries_dag_laws::law_last_values_of_distinct(blocks);
    lemma_children_are_children(blocks, parent, kids[k]);
    assert(kids.contains(kids[k]));
    let j = choose|j: int|
        0 <= j < blocks.len() && (#[trigger] blocks[j]).0 == kids[k] && blocks[j].1.parent_root == parent;
    assert(summaries_dag::last_values(blocks)[blocks[j].0] == blocks[j].1);
}

/// Whether `roots` are distinct children of `top`, each with downward paths of at most `height`
/// steps.
spec fn are_children(
    blocks: Seq<(Hash256, DAGBlockSummary)>,
    top: Hash256,
    roots: Seq<Hash256>,
    height: nat,
) -> bool {
    &&& roots.no_duplicates()
    &&& forall|i: int|
        0 <= i < roots.len() ==> {
            &&& parents_of_list(blocks).contains_key(#[trigger] roots[i])
            &&& parents_of_list(blocks)[roots[i]] == top
            &&& summaries_dag::mentioned(blocks, roots[i])
            &&& summaries_dag::height_at_most(
                summaries_dag::children_of_list(blocks),
                roots[i],
                height,
            )
        }
}

/// What is listed below `roots` comes from one of them.
proof fn lemma_listed_comes_from(
    blocks: Seq<(Hash256, DAGBlockSummary)>,
    top: Hash256,
    roots: Seq<Hash256>,
    height: nat,
    node: Hash256,
) -> (i: int)
    requires
        summaries_dag_laws::distinct_roots(blocks),
        are_children(blocks, top, roots, height),
        summaries_dag::with_descendants(
            summaries_dag::children_of_list(blocks),
            roots,
            height,
        ).contains(node),
    ensures
        0 <= i < roots.len(),
        comes_from(parents_of_list(blocks), node, roots[i]),
        parents_of_list(blocks).contains_key(node),
{
    let parents = parents_of_list(blocks);
    let children = summaries_dag::children_of_list(blocks);
    lemma_with_descendants_contains(children, roots, height, node);
    let i = choose|i: int|
        0 <= i < roots.len() && ((#[trigger] roots[i]) == node || (height > 0
            && summaries_dag::with_descendants(
            children,
            children[roots[i]],
            (height - 1) as nat,
        ).contains(node)));
    if roots[i] == node {
        assert(comes_in(parents, node, node, 0));
    } else {
        lemma_below_comes_from(blocks, roots[i], height, node);
    }
    i
}

proof fn lemma_below_comes_from(
    blocks: Seq<(Hash256, DAGBlockSummary)>,
    root: Hash256,
    height: nat,
    node: Hash256,
)
    requires
        summaries_dag_laws::distinct_roots(blocks),
        summaries_dag::mentioned(blocks, root),
        summaries_dag::height_at_most(summaries_dag::children_of_list(blocks), root, height),
        summaries_dag::descendants(
            summaries_dag::children_of_list(blocks),
            root,
            height,
        ).contains(node),
    ensures
        descends_from(parents_of_list(blocks), node, root),
        comes_from(parents_of_list(blocks), node, root),
        parents_of_list(blocks).contains_key(node),
{
    let parents = parents_of_list(blocks);
    law_descendants_are_what_descends(blocks, root, height, node);
    let n = choose|n: nat|
        n > 0 && lineage::known_for(parents, node, n) && #[trigger] lineage::nth_ancestor(
            parents,
            node,
            n,
        ) == root;
    assert(comes_in(parents, node, root, n));
    assert(parents.contains_key(lineage::nth_ancestor(parents, node, 0)));
}

/// A block comes from whatever its parent comes from.
proof fn lemma_comes_from_step(parents: Map<Hash256, Hash256>, node: Hash256, root: Hash256)
    requires
        parents.contains_key(node),
        comes_from(parents, parents[node], root),
    ensures
        descends_from(parents, node, root),
        comes_from(parents, node, root),
{
    let n = choose|n: nat| comes_in(parents, parents[node], root, n);
    assert(lineage::nth_ancestor(parents, node, 0) == node);
    assert(lineage::nth_ancestor(parents, node, 1) == parents[node]);
    assert forall|i: nat| i < n + 1 implies parents.contains_key(
        #[trigger] lineage::nth_ancestor(parents, node, i),
    ) by {
        if i > 0 {
            lineage::lemma_nth_ancestor_split(parents, node, 1, (i - 1) as nat);
            assert(parents.contains_key(
                lineage::nth_ancestor(parents, parents[node], (i - 1) as nat),
            ));
        }
    }
    lineage::lemma_nth_ancestor_split(parents, node, 1, n);
    assert(comes_in(parents, node, root, n + 1));
    assert(lineage::nth_ancestor(parents, node, n + 1) == root);
}

proof fn lemma_listed_in_order(
    blocks: Seq<(Hash256, DAGBlockSummary)>,
    top: Hash256,
    roots: Seq<Hash256>,
    height: nat,
)
    requires
        summaries_dag_laws::distinct_roots(blocks),
        !descends_from(parents_of_list(blocks), top, top),
        are_children(blocks, top, roots, height),
    ensures
        in_order(
            parents_of_list(blocks),
            summaries_dag::with_descendants(
                summaries_dag::children_of_list(blocks),
                roots,
                height,
            ),
        ),
    decreases height, roots.len(),
{
    let parents = parents_of_list(blocks);
    let children = summaries_dag::children_of_list(blocks);
    let all = summaries_dag::with_descendants(children, roots, height);
    if roots.len() > 0 {
        let short = roots.drop_last();
        let last = roots.last();
        let earlier = summaries_dag::with_descendants(children, short, height);
        let below = summaries_dag::descendants(children, last, height);
        assert(all == earlier + seq![last] + below);
        assert(roots[roots.len() - 1] == last);
        assert forall|i: int| 0 <= i < short.len() implies #[trigger] short[i] == roots[i] && short[i]
            != last by {}
        assert(are_children(blocks, top, short, height));
        lemma_listed_in_order(blocks, top, short, height);
        lemma_no_self_descent(blocks, last, height);
        if height > 0 {
            lemma_children_are_distinct(blocks, last);
            assert forall|k: int| 0 <= k < children[last].len() implies parents.contains_key(
                #[trigger] children[last][k],
            ) && parents[children[last][k]] == last && summaries_dag::mentioned(
                blocks,
                children[last][k],
            ) && summaries_dag::height_at_most(
                children,
                children[last][k],
                (height - 1) as nat,
            ) by {
                lemma_child_facts(blocks, last, k);
            }
            lemma_listed_in_order(blocks, last, children[last], (height - 1) as nat);
        }
        assert(in_order(parents, below));
        // Nothing of an earlier child comes from the last one.
        assert forall|node: Hash256| #[trigger] earlier.contains(node) implies parents.contains_key(node)
            && !comes_from(parents, node, last) by {
            let a = lemma_listed_comes_from(blocks, top, short, height, node);
            if comes_from(parents, node, last) {
                lemma_one_line(parents, node, short[a], last, top);
            }
        }
        assert forall|node: Hash256| #[trigger] below.contains(node) implies parents.contains_key(node)
            && descends_from(parents, node, last) && comes_from(parents, node, last) by {
            lemma_below_comes_from(blocks, last, height, node);
        }
        assert(comes_in(parents, last, last, 0));
        assert(comes_from(parents, last, last));
        assert(parents[last] == top);
        assert(!comes_from(parents, top, last)) by {
            if comes_from(parents, top, last) {
                lemma_comes_from_step(parents, last, last);
            }
        }
        assert(all.no_duplicates()) by {
            assert forall|i: int, j: int| 0 <= i < j < all.len() implies all[i] != all[j] by {
                if i < earlier.len() {
                    assert(earlier[i] == all[i] && earlier.contains(all[i]));
                    if j < earlier.len() {
                        assert(earlier[j] == all[j]);
                    } else if j > earlier.len() {
                        assert(below.contains(below[j - earlier.len() - 1]));
                    }
                } else {
                    assert(below.contains(below[j - earlier.len() - 1]));
                    if i > earlier.len() {
                        assert(below[i - earlier.len() - 1] == all[i]);
                    }
                }
            }
        }
        assert forall|i: int, j: int|
            0 <= i < all.len() && 0 <= j < all.len() && parents[#[trigger] all[j]] == #[trigger] all[i] implies i
            < j by {
            let n = earlier.len();
            if i >= j {
                if j < n {
                    assert(earlier[j] == all[j] && earlier.contains(all[j]));
                    if i < n {
                        assert(earlier[i] == all[i]);
                    } else {
                        if i > n {
                            assert(below.contains(below[i - n - 1]));
                        }
                        assert(comes_from(parents, all[i], last));
                        lemma_comes_from_step(parents, all[j], last);
                    }
                } else if j == n {
                    if i > n {
                        assert(below.contains(below[i - n - 1]));
                    }
                    assert(comes_from(parents, all[i], last));
                } else {
                    assert(below[i - n - 1] == all[i]);
                    assert(below[j - n - 1] == all[j]);
                }
            }
        }
    }
}

/// No block is listed twice among the descendants of a root, and none before its parent; the root
/// itself is not listed.
pub proof fn law_descendants_are_in_order(
    blocks: Seq<(Hash256, DAGBlockSummary)>,
    root: Hash256,
    height: nat,
)
    requires
        summaries_dag_laws::distinct_roots(blocks),
        summaries_dag::mentioned(blocks, root),
        summaries_dag::height_at_most(summaries_dag::children_of_list(blocks), root, height),
    ensures
        ({
            let found = summaries_dag::descendants(
                summaries_dag::children_of_list(blocks),
                root,
                height,
            );
            in_order(parents_of_list(blocks), found) && !found.contains(root)
        }),
{
    let children = summaries_dag::children_of_list(blocks);
    let found = summaries_dag::descendants(children, root, height);
    lemma_no_self_descent(blocks, root, height);
    law_descendants_are_what_descends(blocks, root, height, root);
    if height > 0 {
        lemma_children_are_distinct(blocks, root);
        assert forall|k: int| 0 <= k < children[root].len() implies parents_of_list(
            blocks,
        ).contains_key(#[trigger] children[root][k]) && parents_of_list(blocks)[children[root][k]] == root
            && summaries_dag::mentioned(blocks, children[root][k]) && summaries_dag::height_at_most(
            children,
            children[root][k],
            (height - 1) as nat,
        ) by {
            lemma_child_facts(blocks, root, k);
        }
        lemma_listed_in_order(blocks, root, children[root], (height - 1) as nat);
    }
}

/// Whether no walk from one of the first `n` blocks takes more than `bound` steps.
spec fn depths_at_most(blocks: Seq<(Hash256, DAGBlockSummary)>, n: int, bound: nat) -> bool {
    forall|i: int, steps: nat|
        0 <= i < n && #[trigger] lineage::leaves_after(parents_of_list(blocks), blocks[i].0, steps)
            ==> steps <= bound
}

proof fn lemma_depths_have_a_bound(blocks: Seq<(Hash256, DAGBlockSummary)>, n: int) -> (bound: nat)
    requires
        0 <= n <= blocks.len(),
        forall|i: int|
            0 <= i < blocks.len() ==> lineage::walk_ends(
                parents_of_list(blocks),
                (#[trigger] blocks[i]).0,
            ),
    ensures
        depths_at_most(blocks, n, bound),
    decreases n,
{
    if n == 0 {
        0
    } else {
        let parents = parents_of_list(blocks);
        let earlier = lemma_depths_have_a_bound(blocks, n - 1);
        let root = blocks[n - 1].0;
        let own = choose|steps: nat| lineage::leaves_after(parents, root, steps);
        let bound = if own > earlier {
            own
        } else {
            earlier
        };
        assert forall|i: int, steps: nat|
            0 <= i < n && #[trigger] lineage::leaves_after(parents, blocks[i].0, steps) implies steps
            <= bound by {
            if i == n - 1 {
                lineage::law_walk_leaves_once(parents, root, steps, own);
            }
        }
        bound
    }
}

proof fn lemma_height_from_depth(
    blocks: Seq<(Hash256, DAGBlockSummary)>,
    node: Hash256,
    depth: nat,
    bound: nat,
)
    requires
        summaries_dag_laws::distinct_roots(blocks),
        summaries_dag::mentioned(blocks, node),
        lineage::leaves_after(parents_of_list(blocks), node, depth),
        depth <= bound,
        depths_at_most(blocks, blocks.len() as int, bound),
    ensures
        summaries_dag::height_at_most(
            summaries_dag::children_of_list(blocks),
            node,
            (bound - depth) as nat,
        ),
    decreases bound - depth,
{
    let parents = parents_of_list(blocks);
    let children = summaries_dag::children_of_list(blocks);
    let height = (bound - depth) as nat;
    assert forall|k: int| 0 <= k < children[node].len() implies height > 0
        && summaries_dag::height_at_most(
        children,
        #[trigger] children[node][k],
        (height - 1) as nat,
    ) by {
        let child = children[node][k];
        lemma_child_facts(blocks, node, k);
        let i = lemma_parent_is_listed(blocks, child);
        assert(lineage::nth_ancestor(parents, child, 0) == child);
        assert(lineage::nth_ancestor(parents, child, 1) == node);
        assert forall|n: nat| n < depth + 1 implies parents.contains_key(
            #[trigger] lineage::nth_ancestor(parents, child, n),
        ) by {
            if n > 0 {
                lineage::lemma_nth_ancestor_split(parents, child, 1, (n - 1) as nat);
                assert(parents.contains_key(lineage::nth_ancestor(parents, node, (n - 1) as nat)));
            }
        }
        lineage::lemma_nth_ancestor_split(parents, child, 1, depth);
        assert(lineage::leaves_after(parents, blocks[i].0, depth + 1));
        lemma_height_from_depth(blocks, child, depth + 1, bound);
    }
    assert(children[node].len() > 0 ==> height > 0) by {
        if children[node].len() > 0 {
            let first = children[node][0];
        }
    }
}

/// Where no walk up from a block goes on for ever, every downward path has an end too.
pub proof fn law_blocks_without_cycles_have_a_height(
    blocks: Seq<(Hash256, DAGBlockSummary)>,
    root: Hash256,
)
    requires
        summaries_dag_laws::distinct_roots(blocks),
        summaries_dag::mentioned(blocks, root),
        forall|i: int|
            0 <= i < blocks.len() ==> lineage::walk_ends(
                parents_of_list(blocks),
                (#[trigger] blocks[i]).0,
            ),
    ensures
        exists|height: nat|
            summaries_dag::height_at_most(summaries_dag::children_of_list(blocks), root, height),
{
    let parents = parents_of_list(blocks);
    let bound = lemma_depths_have_a_bound(blocks, blocks.len() as int);
    if parents.contains_key(root) {
        let i = lemma_parent_is_listed(blocks, root);
        let depth = choose|steps: nat| lineage::leaves_after(parents, blocks[i].0, steps);
        lemma_height_from_depth(blocks, root, depth, bound);
    } else {
        assert(lineage::nth_ancestor(parents, root, 0) == root);
        assert(lineage::leaves_after(parents, root, 0));
        lemma_height_from_depth(blocks, root, 0, bound);
    }
}

} // verus!
