//! The joins of one query, with each path of links joined once.

use vstd::prelude::*;
use vstd::string::*;
use crate::alias::{nth_alias, used_after, AliasSet};
use crate::schema::{Chain, LinkToOne, Schema};
use crate::sql_tree::{cte_view, Cte, CteView};

verus! {

/// What a node of the tree is, as plain values.
pub struct JoinNodeView<S> {
    /// The link that leads to the node; none for the root.
    pub link: Option<LinkToOne>,
    pub alias: Seq<char>,
    /// The place of the node that the link leaves; none for the root.
    pub parent: Option<int>,
    /// The places of the nodes that links from this node lead to.
    pub children: Seq<int>,
    /// The derived tables joined at the node, oldest first. A node without any
    /// joins the table that its link leads to.
    pub ctes: Seq<CteView<S>>,
}

/// What a tree is, as plain values: its nodes in the order in which they were
/// made, the root first.
pub struct JoinTreeView<S> {
    pub nodes: Seq<JoinNodeView<S>>,
}

impl<S> JoinNodeView<S> {
    /// The node joins the table that its link leads to.
    pub open spec fn is_table_join(self) -> bool {
        self.ctes.len() == 0
    }

    /// The node joins derived tables.
    pub open spec fn is_cte_join(self) -> bool {
        self.ctes.len() > 0
    }
}

/// The links of `chain` in their order; none where there is no chain.
pub open spec fn links_of(chain: Option<&Chain<LinkToOne>>) -> Seq<LinkToOne> {
    match chain {
        Some(chain) => chain@,
        None => Seq::empty(),
    }
}

impl<S> JoinTreeView<S> {
    /// The tree of a query without joins: the root alone, under `alias`.
    pub open spec fn root_only(alias: Seq<char>) -> JoinTreeView<S> {
        JoinTreeView {
            nodes: seq![
                JoinNodeView {
                    link: None,
                    alias,
                    parent: None,
                    children: Seq::empty(),
                    ctes: Seq::empty(),
                },
            ],
        }
    }

    /// The node at `child` is reached from the node at `parent` over `link`.
    pub open spec fn is_child_via(self, parent: int, link: LinkToOne, child: int) -> bool {
        &&& 0 < child < self.nodes.len()
        &&& self.nodes[child].parent == Some(parent)
        &&& self.nodes[child].link == Some(link)
    }

    /// The place of the node reached from the node at `parent` over `link`.
    pub open spec fn child_by_link(self, parent: int, link: LinkToOne) -> Option<int> {
        if exists|child: int| self.is_child_via(parent, link, child) {
            Some(choose|child: int| self.is_child_via(parent, link, child))
        } else {
            None
        }
    }

    /// The place of the node reached from the root along `path`.
    pub open spec fn resolve(self, path: Seq<LinkToOne>) -> Option<int>
        decreases path.len(),
    {
        if path.len() == 0 {
            Some(0)
        } else {
            match self.resolve(path.drop_last()) {
                Some(parent) => self.child_by_link(parent, path.last()),
                None => None,
            }
        }
    }

    /// The number of links at the start of `path` that the tree has nodes for.
    pub open spec fn matched(self, path: Seq<LinkToOne>) -> nat
        decreases path.len(),
    {
        if path.len() == 0 || self.resolve(path) is Some {
            path.len()
        } else {
            self.matched(path.drop_last())
        }
    }

    /// The shape of the tree: parents come before their children, each node
    /// lists its children in the order in which they were made, and no two
    /// children of a node are reached over the same link.
    pub open spec fn wf(self) -> bool {
        &&& self.nodes.len() >= 1
        &&& self.nodes[0].parent is None
        &&& self.nodes[0].link is None
        &&& forall|c: int|
            0 < c < self.nodes.len() ==> {
                &&& (#[trigger] self.nodes[c]).parent is Some
                &&& 0 <= self.nodes[c].parent->0 < c
                &&& self.nodes[c].link is Some
            }
        &&& forall|p: int, k: int|
            0 <= p < self.nodes.len() && 0 <= k < self.nodes[p].children.len() ==> {
                &&& p < (#[trigger] self.nodes[p].children[k]) < self.nodes.len()
                &&& self.nodes[self.nodes[p].children[k]].parent == Some(p)
            }
        &&& forall|c: int|
            0 < c < self.nodes.len() ==> self.nodes[(
            #[trigger] self.nodes[c]).parent->0].children.contains(c)
        &&& forall|p: int, k: int, l: int|
            0 <= p < self.nodes.len() && 0 <= k < l < self.nodes[p].children.len() ==> (
            #[trigger] self.nodes[p].children[k]) < (#[trigger] self.nodes[p].children[l])
        &&& forall|c: int, d: int|
            0 < c < self.nodes.len() && 0 < d < self.nodes.len() && c != d
                && (#[trigger] self.nodes[c]).parent == (#[trigger] self.nodes[d]).parent
                ==> self.nodes[c].link != self.nodes[d].link
    }

    /// Whether a join of the tree goes by the alias `alias`.
    pub open spec fn has_alias(self, alias: Seq<char>) -> bool {
        ||| exists|c: int| 0 < c < self.nodes.len() && (#[trigger] self.nodes[c]).alias == alias
        ||| exists|i: int, k: int|
            0 <= i < self.nodes.len() && 0 <= k < self.nodes[i].ctes.len()
                && (#[trigger] self.nodes[i].ctes[k]).alias == alias
    }

    /// Every join of the tree has an alias of its own, and `used` holds it.
    pub open spec fn aliased_within(self, used: Set<Seq<char>>) -> bool {
        &&& forall|c: int|
            0 < c < self.nodes.len() ==> used.contains((#[trigger] self.nodes[c]).alias)
        &&& forall|i: int, k: int|
            0 <= i < self.nodes.len() && 0 <= k < self.nodes[i].ctes.len() ==> used.contains(
                (#[trigger] self.nodes[i].ctes[k]).alias,
            )
        &&& forall|c: int, d: int|
            0 < c < self.nodes.len() && 0 < d < self.nodes.len() && c != d
                ==> (#[trigger] self.nodes[c]).alias != (#[trigger] self.nodes[d]).alias
        &&& forall|i: int, k: int, j: int, l: int|
            0 <= i < self.nodes.len() && 0 <= k < self.nodes[i].ctes.len() && 0 <= j
                < self.nodes.len() && 0 <= l < self.nodes[j].ctes.len() && (i != j || k != l)
                ==> (#[trigger] self.nodes[i].ctes[k]).alias != (
            #[trigger] self.nodes[j].ctes[l]).alias
        &&& forall|c: int, j: int, l: int|
            0 < c < self.nodes.len() && 0 <= j < self.nodes.len() && 0 <= l
                < self.nodes[j].ctes.len() ==> (#[trigger] self.nodes[c]).alias != (
            #[trigger] self.nodes[j].ctes[l]).alias
    }

    /// The place of the node at which the tree has nodes for `path` no longer.
    pub open spec fn anchor(self, path: Seq<LinkToOne>) -> int {
        self.resolve(path.take(self.matched(path) as int))->0
    }

    /// The place of the node for the end of `path`, once the tree has nodes
    /// for all of it.
    pub open spec fn terminus(self, path: Seq<LinkToOne>) -> int {
        if self.matched(path) == path.len() {
            self.anchor(path)
        } else {
            self.nodes.len() + path.len() - self.matched(path) - 1
        }
    }

    /// The alias of the `k`-th node made for `path`, where `ideals` holds the
    /// ideal alias of each link of `path` and `used` the names taken before.
    pub open spec fn fresh_alias(
        self,
        used: Set<Seq<char>>,
        path: Seq<LinkToOne>,
        ideals: Seq<Seq<char>>,
        k: int,
    ) -> Seq<char> {
        nth_alias(used, ideals.skip(self.matched(path) as int), k)
    }

    /// The names taken once the tree has nodes for all of `path`.
    pub open spec fn used_after_integrate(
        self,
        used: Set<Seq<char>>,
        path: Seq<LinkToOne>,
        ideals: Seq<Seq<char>>,
    ) -> Set<Seq<char>> {
        used_after(used, ideals.skip(self.matched(path) as int))
    }

    /// The tree after `path` was integrated and `cte`, if any, attached at its
    /// end. The nodes that `path` finds stay as they are; for each link from
    /// the first that finds none, one node is made, under the node before it,
    /// with the first free candidate for the link's ideal alias.
    pub open spec fn integrate(
        self,
        used: Set<Seq<char>>,
        path: Seq<LinkToOne>,
        ideals: Seq<Seq<char>>,
        cte: Option<CteView<S>>,
    ) -> JoinTreeView<S> {
        let base = self.nodes.len() as int;
        let found = self.matched(path) as int;
        let made = path.len() - found;
        let anchor = self.anchor(path);
        let terminus = self.terminus(path);
        JoinTreeView {
            nodes: Seq::new(
                (base + made) as nat,
                |i: int|
                    if i < base {
                        JoinNodeView {
                            link: self.nodes[i].link,
                            alias: self.nodes[i].alias,
                            parent: self.nodes[i].parent,
                            children: if i == anchor && made > 0 {
                                self.nodes[i].children.push(base)
                            } else {
                                self.nodes[i].children
                            },
                            ctes: if i == terminus && cte is Some {
                                self.nodes[i].ctes.push(cte->0)
                            } else {
                                self.nodes[i].ctes
                            },
                        }
                    } else {
                        JoinNodeView {
                            link: Some(path[found + i - base]),
                            alias: self.fresh_alias(used, path, ideals, i - base),
                            parent: Some(
                                if i == base {
                                    anchor
                                } else {
                                    i - 1
                                },
                            ),
                            children: if i + 1 < base + made {
                                seq![i + 1]
                            } else {
                                Seq::empty()
                            },
                            ctes: if i == terminus && cte is Some {
                                seq![cte->0]
                            } else {
                                Seq::empty()
                            },
                        }
                    },
            ),
        }
    }

    /// The alias that integrating `path` with `cte` returns: that of `cte` if
    /// there is one, else that of the node for the end of `path`.
    pub open spec fn integrated_alias(
        self,
        used: Set<Seq<char>>,
        path: Seq<LinkToOne>,
        ideals: Seq<Seq<char>>,
        cte: Option<CteView<S>>,
    ) -> Seq<char> {
        match cte {
            Some(cte) => cte.alias,
            None => self.integrate(used, path, ideals, cte).nodes[self.terminus(path)].alias,
        }
    }
}

/// What a node joins against: one or the other, never both.
enum JoinTarget<S> {
    /// The table that the node's link leads to; for the root, the base table.
    Table,
    /// One or more derived tables, oldest first.
    Ctes(Vec<Cte<S>>),
}

struct JoinNode<S> {
    link: Option<LinkToOne>,
    alias: String,
    parent: Option<usize>,
    children: Vec<usize>,
    target: JoinTarget<S>,
}

impl<S> JoinNode<S> {
    spec fn view(&self) -> JoinNodeView<S> {
        JoinNodeView {
            link: self.link,
            alias: self.alias@,
            parent: match self.parent {
                Some(p) => Some(p as int),
                None => None,
            },
            children: self.children@.map_values(|c: usize| c as int),
            ctes: match self.target {
                JoinTarget::Table => Seq::empty(),
                JoinTarget::Ctes(ctes) => ctes@.map_values(|cte: Cte<S>| cte@),
            },
        }
    }

    /// A node that joins derived tables has at least one.
    spec fn wf(&self) -> bool {
        self.target matches JoinTarget::Ctes(ctes) ==> ctes@.len() > 0
    }
}

/// The joins of one query: a tree of nodes, one for each path of links that
/// was integrated, under a root that stands for the base table.
pub struct JoinTree<S> {
    nodes: Vec<JoinNode<S>>,
}

impl<S> View for JoinTree<S> {
    type V = JoinTreeView<S>;

    closed spec fn view(&self) -> JoinTreeView<S> {
        JoinTreeView { nodes: Seq::new(self.nodes@.len(), |i: int| self.nodes@[i].view()) }
    }
}

impl<S> JoinTree<S> {
    /// Each node that joins derived tables has at least one.
    pub closed spec fn nodes_wf(&self) -> bool {
        forall|i: int| 0 <= i < self.nodes@.len() ==> (#[trigger] self.nodes@[i]).wf()
    }

    /// The tree has the shape of a tree, and its nodes are in order.
    pub open spec fn wf(&self) -> bool {
        self@.wf() && self.nodes_wf()
    }

    /// The tree of a query without joins, with the root under `alias`.
    pub fn new(alias: String) -> (r: JoinTree<S>)
        ensures
            r.wf(),
            r@ == JoinTreeView::<S>::root_only(alias@),
    {
        let mut nodes: Vec<JoinNode<S>> = Vec::new();
        nodes.push(
            JoinNode {
                link: None,
                alias,
                parent: None,
                children: Vec::new(),
                target: JoinTarget::Table,
            },
        );
        let r = JoinTree { nodes };
        assert(r@.nodes[0].children =~= Seq::empty());
        assert(r@.nodes =~= JoinTreeView::<S>::root_only(alias@).nodes);
        r
    }

    /// The number of nodes, the root included.
    pub fn len(&self) -> (r: usize)
        ensures
            r == self@.nodes.len(),
    {
        self.nodes.len()
    }

    /// The alias of the node at `node`; for the root, the name of the base table.
    pub fn get_alias(&self, node: usize) -> (r: &str)
        requires
            node < self@.nodes.len(),
        ensures
            r@ == self@.nodes[node as int].alias,
    {
        self.nodes[node].alias.as_str()
    }

    /// The link that leads to the node at `node`; none for the root.
    pub fn get_link(&self, node: usize) -> (r: Option<LinkToOne>)
        requires
            node < self@.nodes.len(),
        ensures
            r == self@.nodes[node as int].link,
    {
        self.nodes[node].link
    }

    /// The place of the node that the link to the node at `node` leaves; none
    /// for the root.
    pub fn get_parent(&self, node: usize) -> (r: Option<usize>)
        requires
            node < self@.nodes.len(),
        ensures
            r is Some == self@.nodes[node as int].parent is Some,
            r is Some ==> r->0 == self@.nodes[node as int].parent->0,
    {
        self.nodes[node].parent
    }

    /// The places of the nodes that links from the node at `node` lead to, in
    /// the order in which they were made.
    pub fn get_children(&self, node: usize) -> (r: &Vec<usize>)
        requires
            node < self@.nodes.len(),
        ensures
            r@.len() == self@.nodes[node as int].children.len(),
            forall|k: int| 0 <= k < r@.len() ==> r@[k] == self@.nodes[node as int].children[k],
    {
        &self.nodes[node].children
    }

    /// Whether the node at `node` joins derived tables, and not the table that
    /// its link leads to.
    pub fn is_cte_join(&self, node: usize) -> (r: bool)
        requires
            self.wf(),
            node < self@.nodes.len(),
        ensures
            r == self@.nodes[node as int].is_cte_join(),
            r != self@.nodes[node as int].is_table_join(),
    {
        assert(self.nodes@[node as int].wf());
        match &self.nodes[node].target {
            JoinTarget::Table => false,
            JoinTarget::Ctes(_) => true,
        }
    }

    /// The number of derived tables joined at the node at `node`.
    pub fn cte_count(&self, node: usize) -> (r: usize)
        requires
            node < self@.nodes.len(),
        ensures
            r == self@.nodes[node as int].ctes.len(),
    {
        match &self.nodes[node].target {
            JoinTarget::Table => 0,
            JoinTarget::Ctes(ctes) => ctes.len(),
        }
    }

    /// The derived table at place `at` among those joined at the node at `node`.
    pub fn get_cte(&self, node: usize, at: usize) -> (r: &Cte<S>)
        requires
            node < self@.nodes.len(),
            at < self@.nodes[node as int].ctes.len(),
        ensures
            r@ == self@.nodes[node as int].ctes[at as int],
    {
        match &self.nodes[node].target {
            JoinTarget::Table => unreached(),
            JoinTarget::Ctes(ctes) => &ctes[at],
        }
    }

    /// The place of the node reached from the node at `node` over `link`.
    pub fn find_child(&self, node: usize, link: &LinkToOne) -> (r: Option<usize>)
        requires
            self.wf(),
            node < self@.nodes.len(),
        ensures
            r is Some == self@.child_by_link(node as int, *link) is Some,
            r is Some ==> r->0 == self@.child_by_link(node as int, *link)->0,
            r is Some ==> self@.is_child_via(node as int, *link, r->0 as int),
    {
        let children = &self.nodes[node].children;
        let mut at: usize = 0;
        while at < children.len()
            invariant
                self.wf(),
                node < self@.nodes.len(),
                children@ == self.nodes@[node as int].children@,
                at <= children@.len(),
                forall|k: int|
                    0 <= k < at ==> !self@.is_child_via(
                        node as int,
                        *link,
                        #[trigger] self@.nodes[node as int].children[k],
                    ),
            decreases children@.len() - at,
        {
            let child = children[at];
            assert(self@.nodes[node as int].children[at as int] == child);
            assert(self@.nodes[child as int].parent == Some(node as int));
            if self.nodes[child].link == Some(*link) {
                proof {
                    assert(self@.is_child_via(node as int, *link, child as int));
                    crate::join_laws::lemma_child_unique(self@, node as int, *link, child as int);
                }
                return Some(child);
            }
            at = at + 1;
        }
        proof {
            if exists|c: int| self@.is_child_via(node as int, *link, c) {
                let c = choose|c: int| self@.is_child_via(node as int, *link, c);
                assert(self@.nodes[self@.nodes[c].parent->0].children.contains(c));
                let k = choose|k: int|
                    0 <= k < self@.nodes[node as int].children.len()
                        && self@.nodes[node as int].children[k] == c;
                assert(!self@.is_child_via(
                    node as int,
                    *link,
                    self@.nodes[node as int].children[k],
                ));
            }
        }
        None
    }

    /// The place of the node reached from the root along `chain`; the root
    /// where there is no chain.
    pub fn find(&self, chain: Option<&Chain<LinkToOne>>) -> (r: Option<usize>)
        requires
            self.wf(),
        ensures
            r is Some == self@.resolve(links_of(chain)) is Some,
            r is Some ==> r->0 == self@.resolve(links_of(chain))->0,
            r is Some ==> r->0 < self@.nodes.len(),
    {
        let none: Vec<LinkToOne> = Vec::new();
        let links = match chain {
            Some(chain) => chain.links(),
            None => &none,
        };
        assert(links@ =~= links_of(chain));
        let (node, found) = self.descend(links);
        if found == links.len() {
            assert(links@.take(found as int) =~= links@);
            Some(node)
        } else {
            None
        }
    }

    /// Integrates `chain` into the tree and attaches `cte`, if there is one, at
    /// its end. Where the tree has a node for a start of the chain, the node is
    /// kept; for each link from the first that finds none, a node is made, with
    /// the first free candidate for the link's ideal alias, which is then taken
    /// in `aliases`. Returns the alias of `cte` if there is one, else the alias
    /// of the node at the end of the chain.
    pub fn integrate_chain(
        &mut self,
        schema: &Schema,
        aliases: &mut AliasSet,
        chain: Option<&Chain<LinkToOne>>,
        cte: Option<Cte<S>>,
    ) -> (r: String)
        requires
            old(self).wf(),
            old(aliases).wf(),
            old(self)@.aliased_within(old(aliases)@),
            schema.knows_links(links_of(chain)),
            cte is Some ==> old(aliases)@.contains(cte->0@.alias) && !old(self)@.has_alias(
                cte->0@.alias,
            ),
        ensures
            final(self).wf(),
            final(aliases).wf(),
            final(self)@.aliased_within(final(aliases)@),
            final(self)@ == old(self)@.integrate(
                old(aliases)@,
                links_of(chain),
                schema.ideal_aliases(links_of(chain)),
                cte_view(cte),
            ),
            final(aliases)@ == old(self)@.used_after_integrate(
                old(aliases)@,
                links_of(chain),
                schema.ideal_aliases(links_of(chain)),
            ),
            r@ == old(self)@.integrated_alias(
                old(aliases)@,
                links_of(chain),
                schema.ideal_aliases(links_of(chain)),
                cte_view(cte),
            ),
            final(self)@.resolve(links_of(chain)) == Some(old(self)@.terminus(links_of(chain))),
            cte is None ==> r@ == final(self)@.nodes[final(self)@.resolve(
                links_of(chain),
            )->0].alias,
    {
        let none: Vec<LinkToOne> = Vec::new();
        let links = match chain {
            Some(chain) => chain.links(),
            None => &none,
        };
        let ghost path = links_of(chain);
        let ghost ideals = schema.ideal_aliases(path);
        let ghost before = self@;
        let ghost used = aliases@;
        assert(links@ =~= path);
        proof {
            aliases.lemma_finite();
        }
        let (anchor, found) = self.descend(links);
        let node = self.extend(schema, aliases, links, found, anchor);
        let r = match cte {
            Some(cte) => {
                let r = cte.alias.clone();
                self.attach(node, cte);
                r
            },
            None => self.nodes[node].alias.clone(),
        };
        proof {
            let after = before.integrate(used, path, ideals, cte_view(cte));
            assert(self@.nodes.len() == after.nodes.len());
            assert forall|i: int| 0 <= i < after.nodes.len() implies self@.nodes[i]
                == after.nodes[i] by {
                assert(self@.nodes[i].children =~= after.nodes[i].children);
                assert(self@.nodes[i].ctes =~= after.nodes[i].ctes);
            }
            assert(self@.nodes =~= after.nodes);
            crate::join_laws::lemma_integrate_wf(before, used, path, ideals, cte_view(cte));
            crate::join_laws::lemma_integrate_aliased(before, used, path, ideals, cte_view(cte));
            crate::join_laws::lemma_integrate_resolves(
                before,
                used,
                path,
                ideals,
                cte_view(cte),
                path.len() as int,
            );
        }
        r
    }
}

impl<S> JoinTree<S> {
    /// Walks down from the root along `links` as far as the tree has nodes.
    /// Returns the place of the last node reached and the number of links
    /// walked.
    fn descend(&self, links: &Vec<LinkToOne>) -> (r: (usize, usize))
        requires
            self.wf(),
        ensures
            r.0 == self@.anchor(links@),
            r.1 == self@.matched(links@),
            r.0 < self@.nodes.len(),
            r.1 <= links@.len(),
            self@.resolve(links@.take(r.1 as int)) == Some(r.0 as int),
    {
        let ghost path = links@;
        let mut node: usize = 0;
        let mut at: usize = 0;
        let mut searching = true;
        assert(path.take(0) =~= Seq::empty());
        while searching && at < links.len()
            invariant
                self.wf(),
                links@ == path,
                at <= path.len(),
                node < self@.nodes.len(),
                self@.resolve(path.take(at as int)) == Some(node as int),
                !searching ==> at < path.len() && self@.resolve(path.take(at + 1)) is None,
            decreases path.len() - at + if searching { 1int } else { 0int },
        {
            assert(path.take(at + 1).drop_last() =~= path.take(at as int));
            assert(path.take(at + 1).last() == path[at as int]);
            assert(self@.resolve(path.take(at + 1)) == self@.child_by_link(
                node as int,
                path[at as int],
            ));
            match self.find_child(node, &links[at]) {
                Some(child) => {
                    node = child;
                    at = at + 1;
                },
                None => {
                    searching = false;
                },
            }
        }
        proof {
            crate::join_laws::lemma_matched_is(self@, path, at as int);
        }
        (node, at)
    }

    /// Makes a node for `link` under the node at `parent`, with the alias
    /// `alias`. Returns its place.
    fn add_child(&mut self, parent: usize, link: LinkToOne, alias: String) -> (child: usize)
        requires
            parent < old(self).nodes@.len(),
            old(self).nodes_wf(),
        ensures
            child == old(self).nodes@.len(),
            final(self).nodes@.len() == old(self).nodes@.len() + 1,
            final(self).nodes_wf(),
            forall|i: int|
                0 <= i < old(self).nodes@.len() && i != parent ==> final(self)@.nodes[i] == old(
                    self,
                )@.nodes[i],
            final(self)@.nodes[parent as int] == (JoinNodeView {
                children: old(self)@.nodes[parent as int].children.push(child as int),
                ..old(self)@.nodes[parent as int]
            }),
            final(self)@.nodes[child as int] == (JoinNodeView::<S> {
                link: Some(link),
                alias: alias@,
                parent: Some(parent as int),
                children: Seq::empty(),
                ctes: Seq::empty(),
            }),
    {
        let child = self.nodes.len();
        self.nodes[parent].children.push(child);
        self.nodes.push(
            JoinNode {
                link: Some(link),
                alias,
                parent: Some(parent),
                children: Vec::new(),
                target: JoinTarget::Table,
            },
        );
        assert(self@.nodes[parent as int].children =~= old(
            self,
        )@.nodes[parent as int].children.push(child as int));
        assert(self@.nodes[child as int].children =~= Seq::empty());
        child
    }

    /// Joins `cte` at the node at `node`, as the newest of its derived tables.
    fn attach(&mut self, node: usize, cte: Cte<S>)
        requires
            node < old(self).nodes@.len(),
            old(self).nodes_wf(),
        ensures
            final(self).nodes@.len() == old(self).nodes@.len(),
            final(self).nodes_wf(),
            forall|i: int|
                0 <= i < old(self).nodes@.len() && i != node ==> final(self)@.nodes[i] == old(
                    self,
                )@.nodes[i],
            final(self)@.nodes[node as int] == (JoinNodeView {
                ctes: old(self)@.nodes[node as int].ctes.push(cte@),
                ..old(self)@.nodes[node as int]
            }),
    {
        let mut target = JoinTarget::Table;
        std::mem::swap(&mut self.nodes[node].target, &mut target);
        let mut ctes = match target {
            JoinTarget::Table => Vec::new(),
            JoinTarget::Ctes(ctes) => ctes,
        };
        ctes.push(cte);
        self.nodes[node].target = JoinTarget::Ctes(ctes);
        assert(self@.nodes[node as int].ctes =~= old(self)@.nodes[node as int].ctes.push(cte@));
    }

    /// Makes the nodes for the links of `links` from place `found` on, one
    /// under the other, the first under the node at `anchor`. Returns the place
    /// of the last node made, or `anchor` if none was.
    fn extend(
        &mut self,
        schema: &Schema,
        aliases: &mut AliasSet,
        links: &Vec<LinkToOne>,
        found: usize,
        anchor: usize,
    ) -> (node: usize)
        requires
            old(self).nodes_wf(),
            old(aliases).wf(),
            schema.knows_links(links@),
            found == old(self)@.matched(links@),
            anchor == old(self)@.anchor(links@),
            found <= links@.len(),
            anchor < old(self)@.nodes.len(),
        ensures
            final(self).nodes_wf(),
            final(aliases).wf(),
            node == old(self)@.terminus(links@),
            node < final(self)@.nodes.len(),
            final(self)@ == old(self)@.integrate(
                old(aliases)@,
                links@,
                schema.ideal_aliases(links@),
                None,
            ),
            final(aliases)@ == old(self)@.used_after_integrate(
                old(aliases)@,
                links@,
                schema.ideal_aliases(links@),
            ),
    {
        let ghost path = links@;
        let ghost ideals = schema.ideal_aliases(path);
        let ghost requests = ideals.skip(found as int);
        let ghost before = self@;
        let ghost used = aliases@;
        let ghost base = self.nodes@.len() as int;
        let mut node = anchor;
        let mut at = found;
        assert(requests.take(0) =~= Seq::empty());
        while at < links.len()
            invariant
                links@ == path,
                requests == ideals.skip(found as int),
                ideals == schema.ideal_aliases(path),
                schema.knows_links(path),
                found <= at <= path.len(),
                aliases.wf(),
                aliases@ == used_after(used, requests.take(at - found)),
                base == before.nodes.len(),
                anchor < base,
                self.nodes@.len() == base + (at - found),
                self.nodes_wf(),
                node == if at == found {
                    anchor as int
                } else {
                    base + at - found - 1
                },
                forall|i: int|
                    0 <= i < base ==> {
                        &&& (#[trigger] self@.nodes[i]).link == before.nodes[i].link
                        &&& self@.nodes[i].alias == before.nodes[i].alias
                        &&& self@.nodes[i].parent == before.nodes[i].parent
                        &&& self@.nodes[i].ctes == before.nodes[i].ctes
                        &&& self@.nodes[i].children == if i == anchor && at > found {
                            before.nodes[i].children.push(base)
                        } else {
                            before.nodes[i].children
                        }
                    },
                forall|i: int|
                    base <= i < base + at - found ==> {
                        &&& (#[trigger] self@.nodes[i]).link == Some(path[found + i - base])
                        &&& self@.nodes[i].alias == nth_alias(used, requests, i - base)
                        &&& self@.nodes[i].parent == Some(
                            if i == base {
                                anchor as int
                            } else {
                                i - 1
                            },
                        )
                        &&& self@.nodes[i].ctes == Seq::<CteView<S>>::empty()
                        &&& self@.nodes[i].children == if i + 1 < base + at - found {
                            seq![i + 1]
                        } else {
                            Seq::<int>::empty()
                        }
                    },
            decreases path.len() - at,
        {
            let link = links[at];
            assert(schema.knows_link(path[at as int]));
            let ideal = schema.get_ideal_alias_for_link_to_one(&link);
            proof {
                crate::alias::lemma_used_after_step(used, requests, at - found);
                assert(requests[at - found] == ideal@);
            }
            let alias = aliases.allocate(ideal);
            let ghost inner = self@;
            let child = self.add_child(node, link, alias);
            proof {
                assert(child == base + at - found);
                assert forall|i: int| 0 <= i < base + at - found && i != node implies self@.nodes[i]
                    == inner.nodes[i] by {}
                if node >= base {
                    assert(inner.nodes[node as int].children.push(child as int) =~= seq![
                        node + 1,
                    ]);
                }
            }
            node = child;
            at = at + 1;
        }
        proof {
            assert(requests.take(at - found) =~= requests);
            let after = before.integrate(used, path, ideals, None);
            assert(self@.nodes.len() == after.nodes.len());
            assert forall|i: int| 0 <= i < after.nodes.len() implies self@.nodes[i]
                == after.nodes[i] by {
                assert(self@.nodes[i].children =~= after.nodes[i].children);
                assert(self@.nodes[i].ctes =~= after.nodes[i].ctes);
            }
            assert(self@.nodes =~= after.nodes);
        }
        node
    }
}

} // verus!
