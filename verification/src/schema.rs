//! Tables, columns and the links between them, as far as joining reads them.

use vstd::prelude::*;
use vstd::string::*;

verus! {

/// A column of a table, by the identities of both.
#[derive(Clone, Copy, PartialEq, Eq, Structural, Debug, Hash)]
pub struct Reference {
    pub table_id: u64,
    pub column_id: u64,
}

/// A column, by its identity within its table and by its name.
pub struct Column {
    pub id: u64,
    pub name: String,
}

/// A table, by its identity and by its name, with its columns.
pub struct Table {
    pub id: u64,
    pub name: String,
    pub columns: Vec<Column>,
}

/// The tables of a database, in the order in which names are looked up.
pub struct Schema {
    pub tables: Vec<Table>,
}

/// How a name written in a query finds the name stored in the schema.
#[derive(Clone, Copy, PartialEq, Eq, Structural, Debug)]
pub enum IdentifierResolution {
    /// Character for character.
    Strict,
    /// Character for character, but for the case of the letters `a` to `z`.
    IgnoreCase,
}

/// The choices that a query is compiled under.
pub struct Options {
    pub identifier_resolution: IdentifierResolution,
}

/// `c` with the letters `A` to `Z` turned into `a` to `z`.
pub open spec fn lowered(c: char) -> char {
    if 'A' <= c && c <= 'Z' {
        ((c as u8) + 32) as char
    } else {
        c
    }
}

/// Whether the stored name `stored` answers to the written name `wanted`.
pub open spec fn name_matches(
    resolution: IdentifierResolution,
    stored: Seq<char>,
    wanted: Seq<char>,
) -> bool {
    match resolution {
        IdentifierResolution::Strict => stored == wanted,
        IdentifierResolution::IgnoreCase => {
            &&& stored.len() == wanted.len()
            &&& forall|i: int| 0 <= i < stored.len() ==> lowered(stored[i]) == lowered(wanted[i])
        },
    }
}

fn lower(c: char) -> (r: char)
    ensures
        r == lowered(c),
{
    if 'A' <= c && c <= 'Z' {
        ((c as u8) + 32) as char
    } else {
        c
    }
}

impl Options {
    /// Whether the stored name `stored` answers to the written name `wanted`.
    pub fn matches(&self, stored: &str, wanted: &str) -> (r: bool)
        ensures
            r == name_matches(self.identifier_resolution, stored@, wanted@),
    {
        let length = stored.unicode_len();
        if length != wanted.unicode_len() {
            return false;
        }
        let fold = match self.identifier_resolution {
            IdentifierResolution::Strict => false,
            IdentifierResolution::IgnoreCase => true,
        };
        let mut at: usize = 0;
        while at < length
            invariant
                at <= length,
                length == stored@.len(),
                length == wanted@.len(),
                fold == (self.identifier_resolution == IdentifierResolution::IgnoreCase),
                fold ==> forall|i: int| 0 <= i < at ==> lowered(stored@[i]) == lowered(wanted@[i]),
                !fold ==> forall|i: int| 0 <= i < at ==> stored@[i] == wanted@[i],
            decreases length - at,
        {
            let a = stored.get_char(at);
            let b = wanted.get_char(at);
            let same = if fold {
                lower(a) == lower(b)
            } else {
                a == b
            };
            if !same {
                return false;
            }
            at = at + 1;
        }
        assert(!fold ==> stored@ =~= wanted@);
        true
    }
}

impl Table {
    /// `at` is the place of the first column with the identity `id`.
    pub open spec fn is_column_place(&self, id: u64, at: int) -> bool {
        &&& 0 <= at < self.columns@.len()
        &&& self.columns@[at].id == id
        &&& forall|j: int| 0 <= j < at ==> self.columns@[j].id != id
    }

    /// Whether a column has the identity `id`.
    pub open spec fn has_column(&self, id: u64) -> bool {
        exists|at: int| self.is_column_place(id, at)
    }

    /// The first column with the identity `id`.
    pub open spec fn column(&self, id: u64) -> Column
        recommends
            self.has_column(id),
    {
        self.columns@[choose|at: int| self.is_column_place(id, at)]
    }

    /// Only one place is the first.
    pub proof fn lemma_column_place_unique(&self, id: u64, at: int)
        requires
            self.is_column_place(id, at),
        ensures
            self.has_column(id),
            self.column(id) == self.columns@[at],
    {
        let other = choose|at: int| self.is_column_place(id, at);
        assert(self.is_column_place(id, other));
        if other < at {
        } else if at < other {
        }
    }

    /// The first column with the identity `id`, if there is one.
    pub fn get_column(&self, id: u64) -> (r: Option<&Column>)
        ensures
            r is Some == self.has_column(id),
            r is Some ==> *r->0 == self.column(id),
    {
        let mut at: usize = 0;
        while at < self.columns.len()
            invariant
                at <= self.columns.len(),
                forall|j: int| 0 <= j < at ==> self.columns@[j].id != id,
            decreases self.columns.len() - at,
        {
            if self.columns[at].id == id {
                proof {
                    self.lemma_column_place_unique(id, at as int);
                }
                return Some(&self.columns[at]);
            }
            at = at + 1;
        }
        None
    }
}

impl Schema {
    /// `at` is the place of the first table with the identity `id`.
    pub open spec fn is_table_place(&self, id: u64, at: int) -> bool {
        &&& 0 <= at < self.tables@.len()
        &&& self.tables@[at].id == id
        &&& forall|j: int| 0 <= j < at ==> self.tables@[j].id != id
    }

    /// Whether a table has the identity `id`.
    pub open spec fn has_table(&self, id: u64) -> bool {
        exists|at: int| self.is_table_place(id, at)
    }

    /// The first table with the identity `id`.
    pub open spec fn table(&self, id: u64) -> Table
        recommends
            self.has_table(id),
    {
        self.tables@[choose|at: int| self.is_table_place(id, at)]
    }

    /// Only one place is the first.
    pub proof fn lemma_table_place_unique(&self, id: u64, at: int)
        requires
            self.is_table_place(id, at),
        ensures
            self.has_table(id),
            self.table(id) == self.tables@[at],
    {
        let other = choose|at: int| self.is_table_place(id, at);
        assert(self.is_table_place(id, other));
        if other < at {
        } else if at < other {
        }
    }

    /// The first table with the identity `id`, if there is one.
    pub fn get_table(&self, id: u64) -> (r: Option<&Table>)
        ensures
            r is Some == self.has_table(id),
            r is Some ==> *r->0 == self.table(id),
    {
        let mut at: usize = 0;
        while at < self.tables.len()
            invariant
                at <= self.tables.len(),
                forall|j: int| 0 <= j < at ==> self.tables@[j].id != id,
            decreases self.tables.len() - at,
        {
            if self.tables[at].id == id {
                proof {
                    self.lemma_table_place_unique(id, at as int);
                }
                return Some(&self.tables[at]);
            }
            at = at + 1;
        }
        None
    }

    /// `at` is the place of the first table whose name answers to `name`.
    pub open spec fn is_named_place(
        &self,
        resolution: IdentifierResolution,
        name: Seq<char>,
        at: int,
    ) -> bool {
        &&& 0 <= at < self.tables@.len()
        &&& name_matches(resolution, self.tables@[at].name@, name)
        &&& forall|j: int|
            0 <= j < at ==> !name_matches(resolution, (#[trigger] self.tables@[j]).name@, name)
    }

    /// Whether a table answers to `name`.
    pub open spec fn has_table_named(
        &self,
        resolution: IdentifierResolution,
        name: Seq<char>,
    ) -> bool {
        exists|at: int| self.is_named_place(resolution, name, at)
    }

    /// The first table whose name answers to `name`.
    pub open spec fn table_named(&self, resolution: IdentifierResolution, name: Seq<char>) -> Table
        recommends
            self.has_table_named(resolution, name),
    {
        self.tables@[choose|at: int| self.is_named_place(resolution, name, at)]
    }

    /// Only one place is the first.
    pub proof fn lemma_named_place_unique(
        &self,
        resolution: IdentifierResolution,
        name: Seq<char>,
        at: int,
    )
        requires
            self.is_named_place(resolution, name, at),
        ensures
            self.has_table_named(resolution, name),
            self.table_named(resolution, name) == self.tables@[at],
    {
        let other = choose|at: int| self.is_named_place(resolution, name, at);
        assert(self.is_named_place(resolution, name, other));
        if other < at {
            assert(!name_matches(resolution, self.tables@[other].name@, name));
        } else if at < other {
            assert(!name_matches(resolution, self.tables@[at].name@, name));
        }
    }

    /// Whether the column that `reference` names exists.
    pub open spec fn has_column(&self, reference: Reference) -> bool {
        self.has_table(reference.table_id) && self.table(reference.table_id).has_column(
            reference.column_id,
        )
    }

    /// The column that `reference` names.
    pub open spec fn column(&self, reference: Reference) -> Column
        recommends
            self.has_column(reference),
    {
        self.table(reference.table_id).column(reference.column_id)
    }

    /// The column that `reference` names, if it exists.
    pub fn get_column(&self, reference: Reference) -> (r: Option<&Column>)
        ensures
            r is Some == self.has_column(reference),
            r is Some ==> *r->0 == self.column(reference),
    {
        match self.get_table(reference.table_id) {
            Some(table) => table.get_column(reference.column_id),
            None => None,
        }
    }

    /// Whether the table that `link` leads to exists.
    pub open spec fn knows_link(&self, link: LinkToOne) -> bool {
        self.has_table(link.to.table_id)
    }

    /// The alias that a join over `link` would best have: the name of the
    /// table that it leads to.
    pub open spec fn ideal_alias(&self, link: LinkToOne) -> Seq<char>
        recommends
            self.knows_link(link),
    {
        self.table(link.to.table_id).name@
    }

    /// The ideal aliases of `links`, one for one.
    pub open spec fn ideal_aliases(&self, links: Seq<LinkToOne>) -> Seq<Seq<char>> {
        Seq::new(links.len(), |i: int| self.ideal_alias(links[i]))
    }

    /// Whether the table that a link leads to exists, for each of `links`.
    pub open spec fn knows_links(&self, links: Seq<LinkToOne>) -> bool {
        forall|i: int| 0 <= i < links.len() ==> self.knows_link(#[trigger] links[i])
    }

    /// The alias that a join over `link` would best have.
    pub fn get_ideal_alias_for_link_to_one(&self, link: &LinkToOne) -> (r: &str)
        requires
            self.knows_link(*link),
        ensures
            r@ == self.ideal_alias(*link),
    {
        match self.get_table(link.to.table_id) {
            Some(table) => table.name.as_str(),
            None => unreached(),
        }
    }

    /// Whether the table that a link leads to exists, for each link of `chain`.
    pub fn knows_chain(&self, chain: &Chain<LinkToOne>) -> (r: bool)
        ensures
            r == self.knows_links(chain@),
    {
        let mut at: usize = 0;
        while at < chain.len()
            invariant
                at <= chain@.len(),
                forall|i: int| 0 <= i < at ==> self.knows_link(#[trigger] chain@[i]),
            decreases chain@.len() - at,
        {
            if self.get_table(chain.get_link(at).to.table_id).is_none() {
                return false;
            }
            at = at + 1;
        }
        true
    }
}

/// An edge from one column to another.
pub trait Link {
    /// The column that the edge leaves.
    spec fn start(&self) -> Reference;

    /// The column that the edge arrives at.
    spec fn end(&self) -> Reference;

    /// The column that the edge leaves.
    fn get_start(&self) -> (r: Reference)
        ensures
            r == self.start(),
    ;

    /// The column that the edge arrives at.
    fn get_end(&self) -> (r: Reference)
        ensures
            r == self.end(),
    ;
}

/// An edge along which each row finds at most one row. Two such links are the
/// same link when they leave the same column and arrive at the same column.
#[derive(Clone, Copy, PartialEq, Eq, Structural, Debug, Hash)]
pub struct LinkToOne {
    pub from: Reference,
    pub to: Reference,
}

impl Link for LinkToOne {
    open spec fn start(&self) -> Reference {
        self.from
    }

    open spec fn end(&self) -> Reference {
        self.to
    }

    fn get_start(&self) -> (r: Reference) {
        self.from
    }

    fn get_end(&self) -> (r: Reference) {
        self.to
    }
}

/// An edge along which a row may find many rows, with the condition, if any,
/// that the rows found have to meet.
pub struct FilteredLink<F> {
    pub from: Reference,
    pub to: Reference,
    pub filter: Option<F>,
}

impl<F> Link for FilteredLink<F> {
    open spec fn start(&self) -> Reference {
        self.from
    }

    open spec fn end(&self) -> Reference {
        self.to
    }

    fn get_start(&self) -> (r: Reference) {
        self.from
    }

    fn get_end(&self) -> (r: Reference) {
        self.to
    }
}

/// Whether `links` can be walked in one go: there is a first link, and each
/// link arrives at the table that the next one leaves.
pub open spec fn linked<L: Link>(links: Seq<L>) -> bool {
    &&& links.len() > 0
    &&& forall|i: int|
        0 <= i < links.len() - 1 ==> (#[trigger] links[i]).end().table_id == links[i
            + 1].start().table_id
}

/// A path of one or more links, each arriving at the table that the next one
/// leaves.
pub struct Chain<L: Link> {
    links: Vec<L>,
}

impl<L: Link> View for Chain<L> {
    type V = Seq<L>;

    closed spec fn view(&self) -> Seq<L> {
        self.links@
    }
}

impl<L: Link> Chain<L> {
    #[verifier::type_invariant]
    closed spec fn walkable(&self) -> bool {
        linked(self.links@)
    }

    /// The chain over `links`, if they can be walked in one go.
    pub fn try_new(links: Vec<L>) -> (r: Option<Chain<L>>)
        ensures
            r is Some == linked(links@),
            r is Some ==> r->0@ == links@,
    {
        if links.len() == 0 {
            return None;
        }
        let mut at: usize = 0;
        while at + 1 < links.len()
            invariant
                at < links.len(),
                forall|i: int|
                    0 <= i < at ==> (#[trigger] links@[i]).end().table_id == links@[i
                        + 1].start().table_id,
            decreases links.len() - at,
        {
            if links[at].get_end().table_id != links[at + 1].get_start().table_id {
                return None;
            }
            at = at + 1;
        }
        Some(Chain { links })
    }

    /// The number of links.
    pub fn len(&self) -> (r: usize)
        ensures
            r == self@.len(),
            linked(self@),
    {
        proof {
            use_type_invariant(self);
        }
        self.links.len()
    }

    /// The links in their order.
    pub fn links(&self) -> (r: &Vec<L>)
        ensures
            r@ == self@,
            linked(self@),
    {
        proof {
            use_type_invariant(self);
        }
        &self.links
    }

    /// The link at place `at`.
    pub fn get_link(&self, at: usize) -> (r: &L)
        requires
            at < self@.len(),
        ensures
            *r == self@[at as int],
    {
        &self.links[at]
    }

    /// The link that the chain starts with.
    pub fn get_first_link(&self) -> (r: &L)
        ensures
            linked(self@),
            *r == self@[0],
    {
        proof {
            use_type_invariant(self);
        }
        &self.links[0]
    }
}

} // verus!
