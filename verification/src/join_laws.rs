//! What holds of every join tree, and of integrating paths into one.

use vstd::prelude::*;
use crate::alias::{
    lemma_nth_alias_distinct, lemma_nth_alias_fresh, lemma_used_after_grows, nth_alias,
};
use crate::join_tree::JoinTreeView;
use crate::schema::LinkToOne;
use crate::sql_tree::CteView;

verus! {

/// A node is reached over a given link from a given node by one child only.
pub proof fn lemma_child_unique<S>(tree: JoinTreeView<S>, parent: int, link: LinkToOne, child: int)
    requires
        tree.wf(),
        tree.is_child_via(parent, link, child),
    ensures
        tree.child_by_link(parent, link) == Some(child),
{
    let other = choose|c: int| tree.is_child_via(parent, link, c);
    assert(tree.is_child_via(parent, link, other));
    if other != child {
        assert(tree.nodes[other].parent == tree.nodes[child].parent);
        assert(tree.nodes[other].link != tree.nodes[child].link);
    }
}

/// A path leads to a node of the tree, and to the root only if it is empty.
pub proof fn lemma_resolve_in_bounds<S>(tree: JoinTreeView<S>, path: Seq<LinkToOne>)
    requires
        tree.wf(),
        tree.resolve(path) is Some,
    ensures
        0 <= tree.resolve(path)->0 < tree.nodes.len(),
        tree.resolve(path)->0 == 0 <==> path.len() == 0,
        path.len() > 0 ==> tree.resolve(path.drop_last()) is Some && tree.is_child_via(
            tree.resolve(path.drop_last())->0,
            path.last(),
            tree.resolve(path)->0,
        ),
{
    if path.len() > 0 {
        let parent = tree.resolve(path.drop_last())->0;
        let child = choose|c: int| tree.is_child_via(parent, path.last(), c);
        assert(tree.is_child_via(parent, path.last(), child));
    }
}

/// The tree has nodes for each shorter start of a path that it has a node for.
pub proof fn lemma_resolve_prefix<S>(tree: JoinTreeView<S>, path: Seq<LinkToOne>, length: int)
    requires
        0 <= length <= path.len(),
        tree.resolve(path) is Some,
    ensures
        tree.resolve(path.take(length)) is Some,
    decreases path.len(),
{
    if length == path.len() {
        assert(path.take(length) =~= path);
    } else {
        assert(path.drop_last().take(length) =~= path.take(length));
        lemma_resolve_prefix(tree, path.drop_last(), length);
    }
}

/// The tree has nodes for the matched start of a path, and for no longer one.
pub proof fn lemma_matched<S>(tree: JoinTreeView<S>, path: Seq<LinkToOne>)
    ensures
        tree.matched(path) <= path.len(),
        tree.resolve(path.take(tree.matched(path) as int)) is Some,
        tree.matched(path) < path.len() ==> tree.resolve(
            path.take(tree.matched(path) as int + 1),
        ) is None,
    decreases path.len(),
{
    if path.len() == 0 || tree.resolve(path) is Some {
        assert(path.take(path.len() as int) =~= path);
    } else {
        let front = path.drop_last();
        lemma_matched(tree, front);
        let m = tree.matched(front) as int;
        assert(front.take(m) =~= path.take(m));
        if m < front.len() {
            assert(front.take(m + 1) =~= path.take(m + 1));
        } else {
            assert(path.take(m + 1) =~= path);
        }
    }
}

/// A start of a path that the tree has a node for, with no node for the next
/// link, is the matched start.
pub proof fn lemma_matched_is<S>(tree: JoinTreeView<S>, path: Seq<LinkToOne>, length: int)
    requires
        0 <= length <= path.len(),
        tree.resolve(path.take(length)) is Some,
        length < path.len() ==> tree.resolve(path.take(length + 1)) is None,
    ensures
        tree.matched(path) == length,
{
    lemma_matched(tree, path);
    let m = tree.matched(path) as int;
    if m < length {
        assert(path.take(length).take(m + 1) =~= path.take(m + 1));
        lemma_resolve_prefix(tree, path.take(length), m + 1);
    } else if length < m {
        assert(path.take(m).take(length + 1) =~= path.take(length + 1));
        lemma_resolve_prefix(tree, path.take(m), length + 1);
    }
}

/// Two paths that lead to the same node are the same path.
pub proof fn lemma_resolve_injective<S>(
    tree: JoinTreeView<S>,
    path: Seq<LinkToOne>,
    other: Seq<LinkToOne>,
)
    requires
        tree.wf(),
        tree.resolve(path) is Some,
        tree.resolve(path) == tree.resolve(other),
    ensures
        path == other,
    decreases path.len(),
{
    lemma_resolve_in_bounds(tree, path);
    lemma_resolve_in_bounds(tree, other);
    if path.len() == 0 {
        assert(path =~= other);
    } else {
        lemma_resolve_injective(tree, path.drop_last(), other.drop_last());
        assert(path =~= path.drop_last().push(path.last()));
        assert(other =~= other.drop_last().push(other.last()));
    }
}

/// Where integrating a path starts to make nodes, and where it ends.
pub proof fn lemma_integrate_places<S>(tree: JoinTreeView<S>, path: Seq<LinkToOne>)
    requires
        tree.wf(),
    ensures
        tree.matched(path) <= path.len(),
        tree.resolve(path.take(tree.matched(path) as int)) == Some(tree.anchor(path)),
        0 <= tree.anchor(path) < tree.nodes.len(),
        0 <= tree.terminus(path) < tree.nodes.len() + path.len() - tree.matched(path),
        tree.matched(path) < path.len() ==> tree.child_by_link(
            tree.anchor(path),
            path[tree.matched(path) as int],
        ) is None,
{
    lemma_matched(tree, path);
    let m = tree.matched(path) as int;
    lemma_resolve_in_bounds(tree, path.take(m));
    if m < path.len() {
        assert(path.take(m + 1).drop_last() =~= path.take(m));
    }
}

/// Integrating a path keeps the shape of the tree.
pub proof fn lemma_integrate_wf<S>(
    tree: JoinTreeView<S>,
    used: Set<Seq<char>>,
    path: Seq<LinkToOne>,
    ideals: Seq<Seq<char>>,
    cte: Option<CteView<S>>,
)
    requires
        tree.wf(),
    ensures
        tree.integrate(used, path, ideals, cte).wf(),
{
    lemma_integrate_places(tree, path);
    let after = tree.integrate(used, path, ideals, cte);
    let base = tree.nodes.len() as int;
    let found = tree.matched(path) as int;
    let made = path.len() - found;
    let anchor = tree.anchor(path);
    assert(after.nodes.len() == base + made);
    assert forall|c: int| 0 < c < after.nodes.len() implies {
        &&& (#[trigger] after.nodes[c]).parent is Some
        &&& 0 <= after.nodes[c].parent->0 < c
        &&& after.nodes[c].link is Some
    } by {
        if c < base {
            assert(tree.nodes[c].parent is Some);
        }
    }
    assert forall|p: int, k: int|
        0 <= p < after.nodes.len() && 0 <= k < after.nodes[p].children.len() implies {
        &&& p < (#[trigger] after.nodes[p].children[k]) < after.nodes.len()
        &&& after.nodes[after.nodes[p].children[k]].parent == Some(p)
    } by {
        if p < base {
            if k < tree.nodes[p].children.len() {
                let c = tree.nodes[p].children[k];
                assert(p < c < base);
                assert(tree.nodes[c].parent == Some(p));
            }
        }
    }
    assert forall|c: int| 0 < c < after.nodes.len() implies after.nodes[(
    #[trigger] after.nodes[c]).parent->0].children.contains(c) by {
        if c < base {
            let p = tree.nodes[c].parent->0;
            assert(tree.nodes[p].children.contains(c));
            let k = choose|k: int|
                0 <= k < tree.nodes[p].children.len() && tree.nodes[p].children[k] == c;
            assert(after.nodes[p].children[k] == c);
        } else if c == base {
            assert(after.nodes[anchor].children[tree.nodes[anchor].children.len() as int] == c);
        } else {
            assert(after.nodes[c - 1].children[0] == c);
        }
    }
    assert forall|p: int, k: int, l: int|
        0 <= p < after.nodes.len() && 0 <= k < l < after.nodes[p].children.len() implies (
    #[trigger] after.nodes[p].children[k]) < (#[trigger] after.nodes[p].children[l]) by {
        if p < base {
            let c = tree.nodes[p].children[k];
            assert(p < c < base);
            if l < tree.nodes[p].children.len() {
                assert(tree.nodes[p].children[k] < tree.nodes[p].children[l]);
            }
        }
    }
    assert forall|c: int, d: int|
        0 < c < after.nodes.len() && 0 < d < after.nodes.len() && c != d && (
        #[trigger] after.nodes[c]).parent == (
        #[trigger] after.nodes[d]).parent implies after.nodes[c].link != after.nodes[d].link by {
        if c < base && d < base {
            assert(tree.nodes[c].parent == tree.nodes[d].parent);
            assert(tree.nodes[c].link != tree.nodes[d].link);
        } else if c < base {
            assert(tree.nodes[c].parent->0 < c);
            assert(d == base);
            if after.nodes[c].link == after.nodes[d].link {
                assert(tree.is_child_via(anchor, path[found], c));
            }
        } else if d < base {
            assert(tree.nodes[d].parent->0 < d);
            assert(c == base);
            if after.nodes[c].link == after.nodes[d].link {
                assert(tree.is_child_via(anchor, path[found], d));
            }
        }
    }
}

/// Integrating a path keeps the aliases of the tree apart: the nodes made get
/// aliases that were free, and a derived table that comes with an alias that
/// is taken and that no join of the tree goes by keeps it for itself.
pub proof fn lemma_integrate_aliased<S>(
    tree: JoinTreeView<S>,
    used: Set<Seq<char>>,
    path: Seq<LinkToOne>,
    ideals: Seq<Seq<char>>,
    cte: Option<CteView<S>>,
)
    requires
        tree.wf(),
        used.finite(),
        ideals.len() == path.len(),
        tree.aliased_within(used),
        cte is Some ==> used.contains(cte->0.alias) && !tree.has_alias(cte->0.alias),
    ensures
        tree.used_after_integrate(used, path, ideals).finite(),
        used.subset_of(tree.used_after_integrate(used, path, ideals)),
        tree.integrate(used, path, ideals, cte).aliased_within(
            tree.used_after_integrate(used, path, ideals),
        ),
{
    lemma_integrate_places(tree, path);
    let after = tree.integrate(used, path, ideals, cte);
    let base = tree.nodes.len() as int;
    let found = tree.matched(path) as int;
    let made = path.len() - found;
    let terminus = tree.terminus(path);
    let requests = ideals.skip(found);
    let taken = tree.used_after_integrate(used, path, ideals);
    lemma_used_after_grows(used, requests);
    assert forall|k: int| 0 <= k < made implies {
        &&& !used.contains(#[trigger] nth_alias(used, requests, k))
        &&& taken.contains(nth_alias(used, requests, k))
    } by {
        lemma_nth_alias_fresh(used, requests, k);
    }
    assert forall|j: int, k: int| 0 <= j < made && 0 <= k < made && j != k implies nth_alias(
        used,
        requests,
        j,
    ) != nth_alias(used, requests, k) by {
        if j < k {
            lemma_nth_alias_distinct(used, requests, j, k);
        } else {
            lemma_nth_alias_distinct(used, requests, k, j);
        }
    }
    assert forall|c: int| 0 < c < after.nodes.len() implies taken.contains(
        (#[trigger] after.nodes[c]).alias,
    ) by {
        if c < base {
            assert(used.contains(tree.nodes[c].alias));
        } else {
            assert(after.nodes[c].alias == nth_alias(used, requests, c - base));
        }
    }
    // Each derived table of the new tree is one of the old tree or the one attached.
    assert forall|i: int, k: int|
        0 <= i < after.nodes.len() && 0 <= k < after.nodes[i].ctes.len() implies {
        ||| (i < base && k < tree.nodes[i].ctes.len() && (#[trigger] after.nodes[i].ctes[k])
            == tree.nodes[i].ctes[k])
        ||| (cte is Some && i == terminus && after.nodes[i].ctes[k] == cte->0 && k + 1
            == after.nodes[i].ctes.len() && (i < base ==> k == tree.nodes[i].ctes.len()))
    } by {
    }
    assert forall|i: int, k: int|
        0 <= i < after.nodes.len() && 0 <= k < after.nodes[i].ctes.len() implies taken.contains(
        (#[trigger] after.nodes[i].ctes[k]).alias,
    ) by {
        if i < base && k < tree.nodes[i].ctes.len() {
            assert(used.contains(tree.nodes[i].ctes[k].alias));
        }
    }
    assert forall|c: int, d: int|
        0 < c < after.nodes.len() && 0 < d < after.nodes.len() && c != d implies (
    #[trigger] after.nodes[c]).alias != (#[trigger] after.nodes[d]).alias by {
        if c < base && d < base {
            assert(tree.nodes[c].alias != tree.nodes[d].alias);
        } else if c < base {
            assert(used.contains(tree.nodes[c].alias));
            assert(after.nodes[d].alias == nth_alias(used, requests, d - base));
        } else if d < base {
            assert(used.contains(tree.nodes[d].alias));
            assert(after.nodes[c].alias == nth_alias(used, requests, c - base));
        } else {
            assert(after.nodes[c].alias == nth_alias(used, requests, c - base));
            assert(after.nodes[d].alias == nth_alias(used, requests, d - base));
        }
    }
    assert forall|i: int, k: int, j: int, l: int|
        0 <= i < after.nodes.len() && 0 <= k < after.nodes[i].ctes.len() && 0 <= j
            < after.nodes.len() && 0 <= l < after.nodes[j].ctes.len() && (i != j || k
            != l) implies (#[trigger] after.nodes[i].ctes[k]).alias != (
    #[trigger] after.nodes[j].ctes[l]).alias by {
        let old_a = i < base && k < tree.nodes[i].ctes.len();
        let old_b = j < base && l < tree.nodes[j].ctes.len();
        if old_a && old_b {
            assert(tree.nodes[i].ctes[k].alias != tree.nodes[j].ctes[l].alias);
        } else if old_a {
            assert(tree.has_alias(tree.nodes[i].ctes[k].alias));
        } else if old_b {
            assert(tree.has_alias(tree.nodes[j].ctes[l].alias));
        }
    }
    assert forall|c: int, j: int, l: int|
        0 < c < after.nodes.len() && 0 <= j < after.nodes.len() && 0 <= l
            < after.nodes[j].ctes.len() implies (#[trigger] after.nodes[c]).alias != (
    #[trigger] after.nodes[j].ctes[l]).alias by {
        let old_b = j < base && l < tree.nodes[j].ctes.len();
        if c < base {
            if old_b {
                assert(tree.nodes[c].alias != tree.nodes[j].ctes[l].alias);
            } else {
                assert(tree.has_alias(tree.nodes[c].alias));
            }
        } else {
            assert(after.nodes[c].alias == nth_alias(used, requests, c - base));
            if old_b {
                assert(used.contains(tree.nodes[j].ctes[l].alias));
            }
        }
    }
}

/// Integrating a path leaves every node where a path found it before.
pub proof fn lemma_resolve_stable<S>(
    tree: JoinTreeView<S>,
    used: Set<Seq<char>>,
    path: Seq<LinkToOne>,
    ideals: Seq<Seq<char>>,
    cte: Option<CteView<S>>,
    other: Seq<LinkToOne>,
)
    requires
        tree.wf(),
        tree.resolve(other) is Some,
    ensures
        tree.integrate(used, path, ideals, cte).resolve(other) == tree.resolve(other),
    decreases other.len(),
{
    let after = tree.integrate(used, path, ideals, cte);
    lemma_integrate_wf(tree, used, path, ideals, cte);
    lemma_integrate_places(tree, path);
    lemma_resolve_in_bounds(tree, other);
    if other.len() > 0 {
        lemma_resolve_stable(tree, used, path, ideals, cte, other.drop_last());
        let parent = tree.resolve(other.drop_last())->0;
        let child = tree.resolve(other)->0;
        assert(after.is_child_via(parent, other.last(), child));
        lemma_child_unique(after, parent, other.last(), child);
    }
}

/// After a path was integrated, each start of it leads to a node: to the one
/// that it led to before, or to the one that was made for it.
pub proof fn lemma_integrate_resolves<S>(
    tree: JoinTreeView<S>,
    used: Set<Seq<char>>,
    path: Seq<LinkToOne>,
    ideals: Seq<Seq<char>>,
    cte: Option<CteView<S>>,
    length: int,
)
    requires
        tree.wf(),
        0 <= length <= path.len(),
    ensures
        tree.integrate(used, path, ideals, cte).resolve(path.take(length)) == Some(
            if length <= tree.matched(path) {
                tree.resolve(path.take(length))->0
            } else {
                tree.nodes.len() + length - tree.matched(path) - 1
            },
        ),
        length <= tree.matched(path) ==> tree.resolve(path.take(length)) is Some,
        length == path.len() ==> tree.integrate(used, path, ideals, cte).resolve(path) == Some(
            tree.terminus(path),
        ),
    decreases length,
{
    let after = tree.integrate(used, path, ideals, cte);
    let found = tree.matched(path) as int;
    let base = tree.nodes.len() as int;
    lemma_integrate_wf(tree, used, path, ideals, cte);
    lemma_integrate_places(tree, path);
    assert(path.take(path.len() as int) =~= path);
    if length <= found {
        assert(path.take(found).take(length) =~= path.take(length));
        lemma_resolve_prefix(tree, path.take(found), length);
        lemma_resolve_stable(tree, used, path, ideals, cte, path.take(length));
    } else {
        lemma_integrate_resolves(tree, used, path, ideals, cte, length - 1);
        assert(path.take(length).drop_last() =~= path.take(length - 1));
        let parent = after.resolve(path.take(length - 1))->0;
        let child = base + length - found - 1;
        assert(after.nodes[child].link == Some(path[length - 1]));
        assert(after.is_child_via(parent, path[length - 1], child));
        lemma_child_unique(after, parent, path[length - 1], child);
    }
}

/// A path that the tree has a node for is integrated without a change: no
/// node is made, no name is taken, and the alias returned is that of the node.
pub proof fn lemma_integrate_found<S>(
    tree: JoinTreeView<S>,
    used: Set<Seq<char>>,
    path: Seq<LinkToOne>,
    ideals: Seq<Seq<char>>,
)
    requires
        tree.wf(),
        ideals.len() == path.len(),
        tree.resolve(path) is Some,
    ensures
        tree.integrate(used, path, ideals, None) == tree,
        tree.used_after_integrate(used, path, ideals) == used,
        tree.integrated_alias(used, path, ideals, None) == tree.nodes[tree.resolve(path)->0].alias,
        tree.terminus(path) == tree.resolve(path)->0,
{
    let after = tree.integrate(used, path, ideals, None);
    assert(path.take(path.len() as int) =~= path);
    lemma_matched_is(tree, path, path.len() as int);
    lemma_integrate_places(tree, path);
    assert(ideals.skip(path.len() as int).len() == 0);
    assert(after.nodes.len() == tree.nodes.len());
    assert forall|i: int| 0 <= i < tree.nodes.len() implies after.nodes[i] == tree.nodes[i] by {
        assert(after.nodes[i].children =~= tree.nodes[i].children);
        assert(after.nodes[i].ctes =~= tree.nodes[i].ctes);
    }
    assert(after.nodes =~= tree.nodes);
}

/// Join merge idempotence. Integrating a path a second time returns the alias
/// that the first time returned, makes no node and takes no name.
pub proof fn lemma_merge_idempotent<S>(
    tree: JoinTreeView<S>,
    used: Set<Seq<char>>,
    path: Seq<LinkToOne>,
    ideals: Seq<Seq<char>>,
)
    requires
        tree.wf(),
        ideals.len() == path.len(),
    ensures
        ({
            let once = tree.integrate(used, path, ideals, None);
            let taken = tree.used_after_integrate(used, path, ideals);
            &&& once.integrate(taken, path, ideals, None) == once
            &&& once.used_after_integrate(taken, path, ideals) == taken
            &&& once.integrated_alias(taken, path, ideals, None) == tree.integrated_alias(
                used,
                path,
                ideals,
                None,
            )
        }),
{
    let once = tree.integrate(used, path, ideals, None);
    let taken = tree.used_after_integrate(used, path, ideals);
    lemma_integrate_wf(tree, used, path, ideals, None);
    lemma_integrate_resolves(tree, used, path, ideals, None, path.len() as int);
    lemma_integrate_found(once, taken, path, ideals);
}

/// Join divergence. Of two paths integrated one after the other that are
/// equal up to place `fork` and differ there, each start of no more than
/// `fork` links leads to one node for both, and each longer start of the one
/// leads to another node, under another alias, than each longer start of the
/// other.
pub proof fn lemma_join_divergence<S>(
    tree: JoinTreeView<S>,
    used: Set<Seq<char>>,
    first: Seq<LinkToOne>,
    first_ideals: Seq<Seq<char>>,
    second: Seq<LinkToOne>,
    second_ideals: Seq<Seq<char>>,
    fork: int,
)
    requires
        tree.wf(),
        used.finite(),
        tree.aliased_within(used),
        first_ideals.len() == first.len(),
        second_ideals.len() == second.len(),
        0 <= fork < first.len(),
        fork < second.len(),
        first.take(fork) == second.take(fork),
        first[fork] != second[fork],
    ensures
        ({
            let once = tree.integrate(used, first, first_ideals, None);
            let taken = tree.used_after_integrate(used, first, first_ideals);
            let both = once.integrate(taken, second, second_ideals, None);
            &&& forall|length: int|
                0 <= length <= fork ==> {
                    &&& (#[trigger] both.resolve(first.take(length))) is Some
                    &&& both.resolve(first.take(length)) == both.resolve(second.take(length))
                }
            &&& forall|i: int, j: int|
                fork < i <= first.len() && fork < j <= second.len() ==> {
                    &&& (#[trigger] both.resolve(first.take(i))) is Some
                    &&& (#[trigger] both.resolve(second.take(j))) is Some
                    &&& both.resolve(first.take(i)) != both.resolve(second.take(j))
                    &&& both.nodes[both.resolve(first.take(i))->0].alias
                        != both.nodes[both.resolve(second.take(j))->0].alias
                }
        }),
{
    let once = tree.integrate(used, first, first_ideals, None);
    let taken = tree.used_after_integrate(used, first, first_ideals);
    let both = once.integrate(taken, second, second_ideals, None);
    lemma_integrate_wf(tree, used, first, first_ideals, None);
    lemma_integrate_aliased(tree, used, first, first_ideals, None);
    lemma_integrate_wf(once, taken, second, second_ideals, None);
    lemma_integrate_aliased(once, taken, second, second_ideals, None);
    assert forall|length: int| 0 <= length <= fork implies {
        &&& (#[trigger] both.resolve(first.take(length))) is Some
        &&& both.resolve(first.take(length)) == both.resolve(second.take(length))
    } by {
        assert(first.take(fork).take(length) =~= first.take(length));
        assert(second.take(fork).take(length) =~= second.take(length));
        lemma_integrate_resolves(once, taken, second, second_ideals, None, length);
    }
    assert forall|i: int, j: int| fork < i <= first.len() && fork < j <= second.len() implies {
        &&& (#[trigger] both.resolve(first.take(i))) is Some
        &&& (#[trigger] both.resolve(second.take(j))) is Some
        &&& both.resolve(first.take(i)) != both.resolve(second.take(j))
        &&& both.nodes[both.resolve(first.take(i))->0].alias
            != both.nodes[both.resolve(second.take(j))->0].alias
    } by {
        lemma_integrate_resolves(tree, used, first, first_ideals, None, i);
        lemma_resolve_stable(once, taken, second, second_ideals, None, first.take(i));
        lemma_integrate_resolves(once, taken, second, second_ideals, None, j);
        lemma_resolve_in_bounds(both, first.take(i));
        lemma_resolve_in_bounds(both, second.take(j));
        if both.resolve(first.take(i)) == both.resolve(second.take(j)) {
            lemma_resolve_injective(both, first.take(i), second.take(j));
            assert(first.take(i)[fork] == first[fork]);
            assert(second.take(j)[fork] == second[fork]);
        }
    }
}

/// A node joins either the table that its link leads to or derived tables,
/// never both; and a derived table attached at the end of a path makes the
/// node there one that joins derived tables, which has it as its newest, while
/// every other node joins what it joined before.
pub proof fn lemma_cte_replaces_table<S>(
    tree: JoinTreeView<S>,
    used: Set<Seq<char>>,
    path: Seq<LinkToOne>,
    ideals: Seq<Seq<char>>,
    cte: CteView<S>,
)
    requires
        tree.wf(),
    ensures
        ({
            let after = tree.integrate(used, path, ideals, Some(cte));
            let end = tree.terminus(path);
            &&& 0 <= end < after.nodes.len()
            &&& after.resolve(path) == Some(end)
            &&& after.nodes[end].is_cte_join()
            &&& !after.nodes[end].is_table_join()
            &&& after.nodes[end].ctes.last() == cte
            &&& end < tree.nodes.len() ==> after.nodes[end].ctes.drop_last()
                == tree.nodes[end].ctes
            &&& forall|i: int|
                0 <= i < after.nodes.len() ==> (#[trigger] after.nodes[i]).is_table_join()
                    != after.nodes[i].is_cte_join()
            &&& forall|i: int|
                0 <= i < tree.nodes.len() && i != end ==> (#[trigger] after.nodes[i]).ctes
                    == tree.nodes[i].ctes
            &&& forall|i: int|
                tree.nodes.len() <= i < after.nodes.len() && i != end ==> (
                #[trigger] after.nodes[i]).is_table_join()
        }),
{
    let after = tree.integrate(used, path, ideals, Some(cte));
    let end = tree.terminus(path);
    lemma_integrate_places(tree, path);
    lemma_integrate_resolves(tree, used, path, ideals, Some(cte), path.len() as int);
    if end < tree.nodes.len() {
        assert(after.nodes[end].ctes.drop_last() =~= tree.nodes[end].ctes);
    }
}

/// Each node that integrating a path makes goes by an alias that was free
/// before and is taken afterwards.
pub proof fn lemma_integrate_fresh<S>(
    tree: JoinTreeView<S>,
    used: Set<Seq<char>>,
    path: Seq<LinkToOne>,
    ideals: Seq<Seq<char>>,
    cte: Option<CteView<S>>,
    node: int,
)
    requires
        tree.wf(),
        used.finite(),
        ideals.len() == path.len(),
        tree.nodes.len() <= node < tree.integrate(used, path, ideals, cte).nodes.len(),
    ensures
        !used.contains(tree.integrate(used, path, ideals, cte).nodes[node].alias),
        tree.used_after_integrate(used, path, ideals).contains(
            tree.integrate(used, path, ideals, cte).nodes[node].alias,
        ),
{
    lemma_integrate_places(tree, path);
    lemma_nth_alias_fresh(
        used,
        ideals.skip(tree.matched(path) as int),
        node - tree.nodes.len(),
    );
}

/// Alias uniqueness among joins. Two different paths never lead to joins
/// under one alias.
pub proof fn lemma_paths_have_own_aliases<S>(
    tree: JoinTreeView<S>,
    used: Set<Seq<char>>,
    path: Seq<LinkToOne>,
    other: Seq<LinkToOne>,
)
    requires
        tree.wf(),
        tree.aliased_within(used),
        tree.resolve(path) is Some,
        tree.resolve(other) is Some,
        path.len() > 0,
        other.len() > 0,
        path != other,
    ensures
        tree.nodes[tree.resolve(path)->0].alias != tree.nodes[tree.resolve(other)->0].alias,
{
    lemma_resolve_in_bounds(tree, path);
    lemma_resolve_in_bounds(tree, other);
    if tree.resolve(path) == tree.resolve(other) {
        lemma_resolve_injective(tree, path, other);
    }
}

} // verus!
