//! The context in which one query, or one subquery, is compiled.

use vstd::prelude::*;
use vstd::string::*;
use crate::alias::{
    alias_run, allocated, cte_name, first_free, is_first_free, is_next_cte_index, lemma_alias_run_nth,
    lemma_allocated_from_none, lemma_cte_names_bound, lemma_next_cte_index_unique, next_cte_index,
    used_after, AliasSet,
};
use crate::constants::{indent_spacer, CTE_ALIAS_PREFIX, INDENT_SPACER};
use crate::join_tree::{links_of, JoinTree, JoinTreeView};
use crate::schema::{
    name_matches, Chain, FilteredLink, Link, LinkToOne, Options, Schema, Table,
};
use crate::sql_tree::{
    cte_view, ColumnReference, Cte, CtePurpose, CteView, ValueExpression, ValueViaCte,
};
use crate::text::{decimal_string, repeat_text, repeated};

verus! {

/// What `Scope::build` says of a base table that the schema does not have.
pub open spec fn missing_base_table_message(name: Seq<char>) -> Seq<char> {
    seq!['B', 'a', 's', 'e', ' ', 't', 'a', 'b', 'l', 'e', ' ', '`'] + name + seq![
        '`',
        ' ',
        'd',
        'o',
        'e',
        's',
        ' ',
        'n',
        'o',
        't',
        ' ',
        'e',
        'x',
        'i',
        's',
        't',
        '.',
    ]
}

/// The first table of `schema` whose name answers to `name` under the rule of
/// `options`, if there is one.
pub fn get_table_by_name<'a>(options: &Options, schema: &'a Schema, name: &str) -> (r: Option<
    &'a Table,
>)
    ensures
        r is Some == schema.has_table_named(options.identifier_resolution, name@),
        r is Some ==> *r->0 == schema.table_named(options.identifier_resolution, name@),
{
    let mut at: usize = 0;
    while at < schema.tables.len()
        invariant
            at <= schema.tables.len(),
            forall|j: int|
                0 <= j < at ==> !name_matches(
                    options.identifier_resolution,
                    (#[trigger] schema.tables@[j]).name@,
                    name@,
                ),
        decreases schema.tables.len() - at,
    {
        if options.matches(schema.tables[at].name.as_str(), name) {
            proof {
                schema.lemma_named_place_unique(options.identifier_resolution, name@, at as int);
            }
            return Some(&schema.tables[at]);
        }
        at = at + 1;
    }
    None
}

/// The context in which one query is compiled: the table it reads from, its
/// joins, the names taken within it, the running number of its derived tables
/// and the depth at which its text is nested. `S` is the statement that a
/// derived table wraps.
pub struct Scope<'a, S> {
    pub options: &'a Options,
    pub schema: &'a Schema,
    base_table: &'a Table,
    indentation_level: usize,
    join_tree: JoinTree<S>,
    aliases: AliasSet,
    cte_naming_index: usize,
}

impl<'a, S> Scope<'a, S> {
    /// How names are resolved.
    pub closed spec fn options(&self) -> Options {
        *self.options
    }

    /// The tables that the query may name.
    pub closed spec fn schema(&self) -> Schema {
        *self.schema
    }

    /// The table that the query reads its rows from.
    pub closed spec fn base_table(&self) -> Table {
        *self.base_table
    }

    /// How deep the text of the query is nested.
    pub closed spec fn indentation_level(&self) -> nat {
        self.indentation_level as nat
    }

    /// The joins of the query.
    pub closed spec fn join_tree(&self) -> JoinTreeView<S> {
        self.join_tree@
    }

    /// The names taken within the query.
    pub closed spec fn aliases(&self) -> Set<Seq<char>> {
        self.aliases@
    }

    /// The running number of the next derived table.
    pub closed spec fn cte_naming_index(&self) -> nat {
        self.cte_naming_index as nat
    }

    /// The parts of the scope are each in order.
    pub closed spec fn parts_wf(&self) -> bool {
        self.join_tree.wf() && self.aliases.wf()
    }

    /// The scope is in order: the root of its tree goes by the name of the base
    /// table, every join of the tree has an alias of its own, which is taken,
    /// and so is the name of every derived table before the next.
    pub open spec fn wf(&self) -> bool {
        &&& self.parts_wf()
        &&& self.join_tree().wf()
        &&& self.join_tree().nodes[0].alias == self.base_table().name@
        &&& self.join_tree().aliased_within(self.aliases())
        &&& self.aliases().finite()
        &&& forall|k: nat|
            k < self.cte_naming_index() ==> self.aliases().contains(#[trigger] cte_name(k))
    }

    /// The scope with its text nested `level` deep.
    pub closed spec fn with_indentation_level(self, level: nat) -> Self {
        Scope { indentation_level: level as usize, ..self }
    }

    /// Nesting changes the depth and nothing else.
    pub proof fn lemma_with_indentation_level(self, level: nat)
        requires
            level <= usize::MAX,
        ensures
            self.with_indentation_level(level).indentation_level() == level,
            self.with_indentation_level(level).base_table() == self.base_table(),
            self.with_indentation_level(level).join_tree() == self.join_tree(),
            self.with_indentation_level(level).aliases() == self.aliases(),
            self.with_indentation_level(level).cte_naming_index() == self.cte_naming_index(),
            self.with_indentation_level(level).options() == self.options(),
            self.with_indentation_level(level).schema() == self.schema(),
            self.with_indentation_level(level).wf() == self.wf(),
            self.with_indentation_level(self.indentation_level()) == self,
    {
    }

    /// Child isolation. A scope that starts with no name taken, as a spawned
    /// one does, hands out aliases that depend on its own requests alone: the
    /// names that `parent` has taken, equal ones among them, change nothing,
    /// and the first request is handed its ideal name.
    pub proof fn lemma_child_isolated(parent: Self, child: Self, ideals: Seq<Seq<char>>)
        requires
            child.aliases() == Set::<Seq<char>>::empty(),
        ensures
            alias_run(child.aliases(), ideals) == alias_run(Set::empty(), ideals),
            used_after(child.aliases(), ideals) == used_after(Set::empty(), ideals),
            ideals.len() > 0 ==> alias_run(child.aliases(), ideals)[0] == ideals[0],
    {
        if ideals.len() > 0 {
            lemma_alias_run_nth(Set::empty(), ideals, 0);
            assert(ideals.take(0) =~= Seq::empty());
            lemma_allocated_from_none(ideals[0]);
        }
    }

    /// The scope of a query on the table that answers to `base_table_name`.
    /// Without such a table there is no scope, and the error names the table.
    pub fn build(options: &'a Options, schema: &'a Schema, base_table_name: &'a str) -> (r: Result<
        Self,
        String,
    >)
        ensures
            r is Ok == schema.has_table_named(options.identifier_resolution, base_table_name@),
            r matches Ok(scope) ==> {
                &&& scope.wf()
                &&& scope.options() == *options
                &&& scope.schema() == *schema
                &&& scope.base_table() == schema.table_named(
                    options.identifier_resolution,
                    base_table_name@,
                )
                &&& scope.indentation_level() == 0
                &&& scope.join_tree() == JoinTreeView::<S>::root_only(scope.base_table().name@)
                &&& scope.aliases() == Set::<Seq<char>>::empty()
                &&& scope.cte_naming_index() == 0
            },
            r matches Err(message) ==> message@ == missing_base_table_message(base_table_name@),
    {
        match get_table_by_name(options, schema, base_table_name) {
            Some(base_table) => {
                let scope = Scope {
                    options,
                    schema,
                    base_table,
                    indentation_level: 0,
                    join_tree: JoinTree::new(base_table.name.clone()),
                    aliases: AliasSet::new(),
                    cte_naming_index: 0,
                };
                Ok(scope)
            },
            None => {
                proof {
                    reveal_strlit("Base table `");
                    reveal_strlit("` does not exist.");
                }
                let message = String::from_str("Base table `").concat(base_table_name).concat(
                    "` does not exist.",
                );
                assert(message@ =~= missing_base_table_message(base_table_name@));
                Err(message)
            },
        }
    }

    /// The table that the query reads its rows from.
    pub fn get_base_table(&self) -> (r: &Table)
        ensures
            *r == self.base_table(),
    {
        self.base_table
    }

    /// Hands the joins of the query over and starts again with none. The names
    /// taken stay taken.
    pub fn take_join_tree(&mut self) -> (r: JoinTree<S>)
        requires
            old(self).wf(),
        ensures
            final(self).wf(),
            r.wf(),
            r@ == old(self).join_tree(),
            r@.aliased_within(final(self).aliases()),
            final(self).join_tree() == JoinTreeView::<S>::root_only(old(self).base_table().name@),
            final(self).base_table() == old(self).base_table(),
            final(self).indentation_level() == old(self).indentation_level(),
            final(self).aliases() == old(self).aliases(),
            final(self).cte_naming_index() == old(self).cte_naming_index(),
            final(self).options() == old(self).options(),
            final(self).schema() == old(self).schema(),
    {
        let mut tree = JoinTree::new(self.base_table.name.clone());
        std::mem::swap(&mut self.join_tree, &mut tree);
        tree
    }

    /// The text that a line at the scope's depth starts with.
    pub fn get_indentation(&self) -> (r: String)
        ensures
            r@ == repeated(indent_spacer(), self.indentation_level()),
    {
        proof {
            reveal_strlit("    ");
            assert(INDENT_SPACER@ =~= indent_spacer());
        }
        repeat_text(INDENT_SPACER, self.indentation_level)
    }

    /// How deep the text of the query is nested.
    pub fn get_indentation_level(&self) -> (r: usize)
        ensures
            r == self.indentation_level(),
    {
        self.indentation_level
    }

    /// The scope of a subquery on `base_table`: nested one level deeper, with
    /// no joins, no name taken and its derived tables numbered from the start.
    pub fn spawn(&self, base_table: &'a Table) -> (r: Self)
        ensures
            r.wf(),
            r.options() == self.options(),
            r.schema() == self.schema(),
            r.base_table() == *base_table,
            r.indentation_level() == deeper(self.indentation_level()),
            r.join_tree() == JoinTreeView::<S>::root_only(base_table.name@),
            r.aliases() == Set::<Seq<char>>::empty(),
            r.cte_naming_index() == 0,
    {
        Scope {
            options: self.options,
            schema: self.schema,
            base_table,
            indentation_level: self.get_indentation_level().saturating_add(1),
            join_tree: JoinTree::new(base_table.name.clone()),
            aliases: AliasSet::new(),
            cte_naming_index: 0,
        }
    }

    /// The first table of the schema whose name answers to `name`, if any.
    pub fn get_table_by_name(&self, name: &str) -> (r: Option<&Table>)
        ensures
            r is Some == self.schema().has_table_named(self.options().identifier_resolution, name@),
            r is Some ==> *r->0 == self.schema().table_named(
                self.options().identifier_resolution,
                name@,
            ),
    {
        get_table_by_name(self.options, self.schema, name)
    }

    /// Runs `f` one level deeper and comes back up one level, whatever `f`
    /// returns.
    pub fn indented<T, F: FnOnce(&mut Self) -> T>(&mut self, f: F) -> (r: T)
        requires
            forall|inner: &mut Self|
                *inner == old(self).with_indentation_level(deeper(old(self).indentation_level()))
                    ==> call_requires(f, (inner,)),
        ensures
            exists|inner: &mut Self|
                {
                    &&& *inner == old(self).with_indentation_level(
                        deeper(old(self).indentation_level()),
                    )
                    &&& #[trigger] call_ensures(f, (inner,), r)
                    &&& *final(self) == final(inner).with_indentation_level(
                        shallower(final(inner).indentation_level()),
                    )
                },
            old(self).indentation_level() < usize::MAX && (forall|inner: &mut Self, out: T|
                #[trigger] call_ensures(f, (inner,), out) ==> final(inner).indentation_level()
                    == inner.indentation_level()) ==> final(self).indentation_level() == old(
                self,
            ).indentation_level(),
    {
        self.indentation_level = self.indentation_level.saturating_add(1);
        let r = f(self);
        self.indentation_level = self.indentation_level.saturating_sub(1);
        r
    }

    /// Hands out the first candidate for `ideal_alias` that is free within the
    /// query, and takes it: the name itself, else the name with `_1`, `_2`, and
    /// so on behind it.
    pub fn get_alias(&mut self, ideal_alias: &str) -> (r: String)
        requires
            old(self).wf(),
        ensures
            final(self).wf(),
            r@ == allocated(old(self).aliases(), ideal_alias@),
            is_first_free(
                old(self).aliases(),
                ideal_alias@,
                first_free(old(self).aliases(), ideal_alias@),
            ),
            !old(self).aliases().contains(r@),
            final(self).aliases() == old(self).aliases().insert(r@),
            final(self).join_tree() == old(self).join_tree(),
            final(self).cte_naming_index() == old(self).cte_naming_index(),
            final(self).indentation_level() == old(self).indentation_level(),
            final(self).base_table() == old(self).base_table(),
            final(self).options() == old(self).options(),
            final(self).schema() == old(self).schema(),
    {
        self.aliases.allocate(ideal_alias)
    }

    /// Names the next derived table: the prefix and the first running number,
    /// from the scope's own on, that gives a free name. The name is taken, and
    /// the scope goes on counting behind that number.
    fn get_cte_alias(&mut self) -> (r: String)
        requires
            old(self).wf(),
        ensures
            final(self).wf(),
            is_next_cte_index(
                old(self).aliases(),
                old(self).cte_naming_index(),
                next_cte_index(old(self).aliases(), old(self).cte_naming_index()),
            ),
            r@ == cte_name(next_cte_index(old(self).aliases(), old(self).cte_naming_index())),
            !old(self).aliases().contains(r@),
            final(self).aliases() == old(self).aliases().insert(r@),
            final(self).cte_naming_index() == next_cte_index(
                old(self).aliases(),
                old(self).cte_naming_index(),
            ) + 1,
            final(self).join_tree() == old(self).join_tree(),
            final(self).indentation_level() == old(self).indentation_level(),
            final(self).base_table() == old(self).base_table(),
            final(self).options() == old(self).options(),
            final(self).schema() == old(self).schema(),
    {
        loop
            invariant
                self.wf(),
                self.aliases() == old(self).aliases(),
                self.join_tree() == old(self).join_tree(),
                self.indentation_level() == old(self).indentation_level(),
                self.base_table() == old(self).base_table(),
                self.options() == old(self).options(),
                self.schema() == old(self).schema(),
                old(self).cte_naming_index() <= self.cte_naming_index(),
                forall|j: nat|
                    old(self).cte_naming_index() <= j < self.cte_naming_index()
                        ==> self.aliases().contains(#[trigger] cte_name(j)),
            decreases usize::MAX - self.cte_naming_index,
        {
            let index = self.cte_naming_index;
            proof {
                reveal_strlit("cte");
            }
            let alias = String::from_str(CTE_ALIAS_PREFIX).concat(decimal_string(index).as_str());
            assert(alias@ =~= cte_name(index as nat));
            let free = !self.aliases.contains(&alias);
            let r = alias.clone();
            if free {
                proof {
                    assert(is_next_cte_index(
                        old(self).aliases(),
                        old(self).cte_naming_index(),
                        index as nat,
                    ));
                    lemma_next_cte_index_unique(
                        old(self).aliases(),
                        old(self).cte_naming_index(),
                        index as nat,
                    );
                }
                self.aliases.insert(alias);
            }
            proof {
                self.aliases.lemma_finite();
                assert forall|k: nat| k < index + 1 implies self.aliases@.contains(
                    #[trigger] cte_name(k),
                ) by {
                    if k < index {
                        assert(old(self).aliases().contains(cte_name(k)));
                    }
                }
                lemma_cte_names_bound(self.aliases@, (index + 1) as nat);
            }
            self.cte_naming_index = index + 1;
            if free {
                return r;
            }
        }
    }

    /// Integrates `chain` into the joins of the query and attaches `cte`, if
    /// there is one, at its end. Returns an alias that is the join's own within
    /// the query.
    fn integrate_chain(&mut self, chain: Option<&Chain<LinkToOne>>, cte: Option<Cte<S>>) -> (r:
        String)
        requires
            old(self).wf(),
            old(self).schema().knows_links(links_of(chain)),
            cte is Some ==> old(self).aliases().contains(cte->0@.alias) && !old(
                self,
            ).join_tree().has_alias(cte->0@.alias),
        ensures
            final(self).wf(),
            final(self).join_tree() == old(self).join_tree().integrate(
                old(self).aliases(),
                links_of(chain),
                old(self).schema().ideal_aliases(links_of(chain)),
                cte_view(cte),
            ),
            final(self).aliases() == old(self).join_tree().used_after_integrate(
                old(self).aliases(),
                links_of(chain),
                old(self).schema().ideal_aliases(links_of(chain)),
            ),
            r@ == old(self).join_tree().integrated_alias(
                old(self).aliases(),
                links_of(chain),
                old(self).schema().ideal_aliases(links_of(chain)),
                cte_view(cte),
            ),
            final(self).join_tree().resolve(links_of(chain)) is Some,
            cte is None ==> r@ == final(self).join_tree().nodes[
                final(self).join_tree().resolve(links_of(chain))->0
            ].alias,
            final(self).cte_naming_index() == old(self).cte_naming_index(),
            final(self).indentation_level() == old(self).indentation_level(),
            final(self).base_table() == old(self).base_table(),
            final(self).options() == old(self).options(),
            final(self).schema() == old(self).schema(),
    {
        let r = self.join_tree.integrate_chain(self.schema, &mut self.aliases, chain, cte);
        proof {
            crate::join_laws::lemma_integrate_aliased(
                old(self).join_tree(),
                old(self).aliases(),
                links_of(chain),
                old(self).schema().ideal_aliases(links_of(chain)),
                cte_view(cte),
            );
            self.aliases.lemma_finite();
        }
        r
    }

    /// Joins the rows that `chain` leads to, once for all that ask for the same
    /// chain. Returns the alias of the join at the end of the chain.
    pub fn join_chain_to_one(&mut self, chain: &Chain<LinkToOne>) -> (r: String)
        requires
            old(self).wf(),
            old(self).schema().knows_links(chain@),
        ensures
            final(self).wf(),
            final(self).join_tree() == old(self).join_tree().integrate(
                old(self).aliases(),
                chain@,
                old(self).schema().ideal_aliases(chain@),
                None,
            ),
            final(self).aliases() == old(self).join_tree().used_after_integrate(
                old(self).aliases(),
                chain@,
                old(self).schema().ideal_aliases(chain@),
            ),
            r@ == old(self).join_tree().integrated_alias(
                old(self).aliases(),
                chain@,
                old(self).schema().ideal_aliases(chain@),
                None,
            ),
            final(self).join_tree().resolve(chain@) is Some,
            r@ == final(self).join_tree().nodes[final(self).join_tree().resolve(chain@)->0].alias,
            final(self).cte_naming_index() == old(self).cte_naming_index(),
            final(self).indentation_level() == old(self).indentation_level(),
            final(self).base_table() == old(self).base_table(),
            final(self).options() == old(self).options(),
            final(self).schema() == old(self).schema(),
    {
        self.integrate_chain(Some(chain), None)
    }

    /// What joining a derived table for `value` makes of the scope `self`:
    /// the table gets the next free name, with the purpose `purpose`, is found
    /// by the column `join_column_name` and is attached at the end of `head`;
    /// `new` is the scope afterwards and `reference` the value within it.
    pub open spec fn joins_value<C>(
        self,
        head: Seq<LinkToOne>,
        join_column_name: Seq<char>,
        value: ValueViaCte<S, C>,
        purpose: CtePurpose,
        new: Self,
        reference: ValueExpression<C>,
    ) -> bool {
        let index = next_cte_index(self.aliases(), self.cte_naming_index());
        let cte = CteView {
            select: value.select,
            alias: cte_name(index),
            purpose,
            join_column_name,
        };
        let taken = self.aliases().insert(cte_name(index));
        let ideals = self.schema().ideal_aliases(head);
        &&& new.cte_naming_index() == index + 1
        &&& new.join_tree() == self.join_tree().integrate(taken, head, ideals, Some(cte))
        &&& new.aliases() == self.join_tree().used_after_integrate(taken, head, ideals)
        &&& new.indentation_level() == self.indentation_level()
        &&& new.base_table() == self.base_table()
        &&& new.options() == self.options()
        &&& new.schema() == self.schema()
        &&& reference.base.table_alias@ == cte_name(index)
        &&& reference.base.column_name@ == value.value_alias@
        &&& reference.compositions@ == value.compositions@
    }

    /// Joins the derived table that computes `value`, under the next free
    /// name, at the end of `head`, to be found by the column
    /// `join_column_name`. Returns the value as a column of that table, with
    /// the operations that are still to be applied to it.
    pub fn integrate_value_via_cte<C>(
        &mut self,
        head: Option<&Chain<LinkToOne>>,
        join_column_name: String,
        value: ValueViaCte<S, C>,
        purpose: CtePurpose,
    ) -> (r: ValueExpression<C>)
        requires
            old(self).wf(),
            old(self).schema().knows_links(links_of(head)),
        ensures
            final(self).wf(),
            old(self).joins_value(
                links_of(head),
                join_column_name@,
                value,
                purpose,
                *final(self),
                r,
            ),
    {
        let ValueViaCte { select, value_alias, compositions } = value;
        let cte_alias = self.get_cte_alias();
        let cte = Cte { select, alias: cte_alias.clone(), purpose, join_column_name };
        proof {
            assert(!self.join_tree().has_alias(cte@.alias));
        }
        self.integrate_chain(head, Some(cte));
        ValueExpression {
            base: ColumnReference { table_alias: cte_alias, column_name: value_alias },
            compositions,
        }
    }

    /// Joins the rows that `chain` fans out to as one derived table with one
    /// value for each row at the end of `head`. `build_cte_select` compiles the
    /// chain; what it refuses is returned as it is, and the scope is then as it
    /// was.
    pub fn join_chain_to_many<F, C, B>(
        &mut self,
        head: &Option<Chain<LinkToOne>>,
        chain: Chain<FilteredLink<F>>,
        final_column_name: Option<String>,
        compositions: Vec<C>,
        purpose: CtePurpose,
        build_cte_select: B,
    ) -> (r: Result<ValueExpression<C>, String>) where
        B: FnOnce(Chain<FilteredLink<F>>, Option<String>, Vec<C>, &Self, CtePurpose) -> Result<
            ValueViaCte<S, C>,
            String,
        >,

        requires
            old(self).wf(),
            old(self).schema().knows_links(head_links(head)),
            chain@.len() > 0 ==> old(self).schema().has_column(chain@[0].start()),
            call_requires(
                build_cte_select,
                (chain, final_column_name, compositions, &*old(self), purpose),
            ),
        ensures
            exists|built: Result<ValueViaCte<S, C>, String>|
                {
                    &&& #[trigger] call_ensures(
                        build_cte_select,
                        (chain, final_column_name, compositions, &*old(self), purpose),
                        built,
                    )
                    &&& match built {
                        Ok(value) => {
                            &&& r is Ok
                            &&& final(self).wf()
                            &&& old(self).joins_value(
                                head_links(head),
                                old(self).schema().column(chain@[0].start()).name@,
                                value,
                                purpose,
                                *final(self),
                                r->Ok_0,
                            )
                        },
                        Err(refusal) => {
                            &&& r == Err::<ValueExpression<C>, String>(refusal)
                            &&& *final(self) == *old(self)
                        },
                    }
                },
    {
        let starting_reference = chain.get_first_link().get_start();
        let join_column_name = match self.schema.get_column(starting_reference) {
            Some(starting_column) => starting_column.name.clone(),
            None => unreached(),
        };
        let head = match head {
            Some(head) => Some(head),
            None => None,
        };
        match build_cte_select(chain, final_column_name, compositions, self, purpose) {
            Ok(value) => Ok(self.integrate_value_via_cte(head, join_column_name, value, purpose)),
            Err(refusal) => Err(refusal),
        }
    }
}

/// The links of the chain that leads up to where rows fan out; none where
/// they fan out from the base table.
pub open spec fn head_links(head: &Option<Chain<LinkToOne>>) -> Seq<LinkToOne> {
    match head {
        Some(head) => head@,
        None => Seq::empty(),
    }
}

/// One level deeper than `level`, as far as levels go.
pub open spec fn deeper(level: nat) -> nat {
    if level < usize::MAX {
        level + 1
    } else {
        level
    }
}

/// One level up from `level`, as far as levels go.
pub open spec fn shallower(level: nat) -> nat {
    if level > 0 {
        (level - 1) as nat
    } else {
        level
    }
}

} // verus!
