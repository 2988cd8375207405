//! Alias names and the set of names already taken within one query level.

use vstd::prelude::*;
use vstd::string::*;
use crate::constants::cte_alias_prefix;
use crate::text::{decimal, decimal_string, lemma_decimal_injective, lemma_decimal_nonempty};

verus! {

/// The `index`-th candidate for the ideal name `ideal`: the name itself, then
/// the name followed by `_1`, `_2`, and so on.
pub open spec fn suffixed(ideal: Seq<char>, index: nat) -> Seq<char> {
    if index == 0 {
        ideal
    } else {
        ideal + seq!['_'] + decimal(index)
    }
}

/// The name of the derived table with running number `index`.
pub open spec fn cte_name(index: nat) -> Seq<char> {
    cte_alias_prefix() + decimal(index)
}

/// `index` is the first candidate for `ideal` that `used` does not hold.
pub open spec fn is_first_free(used: Set<Seq<char>>, ideal: Seq<char>, index: nat) -> bool {
    &&& !used.contains(suffixed(ideal, index))
    &&& forall|j: nat| j < index ==> used.contains(#[trigger] suffixed(ideal, j))
}

/// The number of the first candidate for `ideal` that `used` does not hold.
pub open spec fn first_free(used: Set<Seq<char>>, ideal: Seq<char>) -> nat {
    choose|index: nat| is_first_free(used, ideal, index)
}

/// The alias handed out for `ideal` when the names in `used` are taken.
pub open spec fn allocated(used: Set<Seq<char>>, ideal: Seq<char>) -> Seq<char> {
    suffixed(ideal, first_free(used, ideal))
}

/// `index` is the first running number from `from` on whose derived-table name
/// `used` does not hold.
pub open spec fn is_next_cte_index(used: Set<Seq<char>>, from: nat, index: nat) -> bool {
    &&& from <= index
    &&& !used.contains(cte_name(index))
    &&& forall|j: nat| from <= j < index ==> used.contains(#[trigger] cte_name(j))
}

/// The running number of the derived table named next, when the names in
/// `used` are taken and the running numbers below `from` are spent.
pub open spec fn next_cte_index(used: Set<Seq<char>>, from: nat) -> nat {
    choose|index: nat| is_next_cte_index(used, from, index)
}

/// The names taken after the requests `ideals` were served in order, starting
/// from the taken names `used`.
pub open spec fn used_after(used: Set<Seq<char>>, ideals: Seq<Seq<char>>) -> Set<Seq<char>>
    decreases ideals.len(),
{
    if ideals.len() == 0 {
        used
    } else {
        let before = used_after(used, ideals.drop_last());
        before.insert(allocated(before, ideals.last()))
    }
}

/// The aliases handed out for the requests `ideals`, served in order, starting
/// from the taken names `used`.
pub open spec fn alias_run(used: Set<Seq<char>>, ideals: Seq<Seq<char>>) -> Seq<Seq<char>>
    decreases ideals.len(),
{
    if ideals.len() == 0 {
        Seq::empty()
    } else {
        let before = used_after(used, ideals.drop_last());
        alias_run(used, ideals.drop_last()).push(allocated(before, ideals.last()))
    }
}

/// The alias handed out for the request at place `k` of `ideals`, after the
/// requests before it were served.
pub open spec fn nth_alias(used: Set<Seq<char>>, ideals: Seq<Seq<char>>, k: int) -> Seq<char> {
    allocated(used_after(used, ideals.take(k)), ideals[k])
}

/// Two candidates for one ideal name are equal only if their numbers are.
pub proof fn lemma_suffixed_injective(ideal: Seq<char>, i: nat, j: nat)
    requires
        suffixed(ideal, i) == suffixed(ideal, j),
    ensures
        i == j,
{
    lemma_decimal_nonempty(i);
    lemma_decimal_nonempty(j);
    if i != 0 && j != 0 {
        let a = suffixed(ideal, i);
        let b = suffixed(ideal, j);
        let cut = ideal.len() + 1;
        assert(a.subrange(cut as int, a.len() as int) =~= decimal(i));
        assert(b.subrange(cut as int, b.len() as int) =~= decimal(j));
        lemma_decimal_injective(i, j);
    } else if i != 0 || j != 0 {
        assert(suffixed(ideal, i).len() != suffixed(ideal, j).len());
    }
}

/// Two derived-table names are equal only if their running numbers are.
pub proof fn lemma_cte_name_injective(i: nat, j: nat)
    requires
        cte_name(i) == cte_name(j),
    ensures
        i == j,
{
    let a = cte_name(i);
    let b = cte_name(j);
    assert(a.subrange(3, a.len() as int) =~= decimal(i));
    assert(b.subrange(3, b.len() as int) =~= decimal(j));
    lemma_decimal_injective(i, j);
}

/// A finite set that holds every entry of a list without repetitions has at
/// least as many elements as the list has entries.
pub proof fn lemma_distinct_names_bound(used: Set<Seq<char>>, names: Seq<Seq<char>>)
    requires
        used.finite(),
        names.no_duplicates(),
        forall|i: int| 0 <= i < names.len() ==> used.contains(#[trigger] names[i]),
    ensures
        names.len() <= used.len(),
{
    names.unique_seq_to_set();
    assert(names.to_set().subset_of(used));
    vstd::set_lib::lemma_len_subset(names.to_set(), used);
}

/// When every candidate below `from` is taken, a first free candidate exists.
proof fn lemma_first_free_from(used: Set<Seq<char>>, ideal: Seq<char>, from: nat)
    requires
        used.finite(),
        forall|j: nat| j < from ==> used.contains(#[trigger] suffixed(ideal, j)),
    ensures
        exists|index: nat| is_first_free(used, ideal, index),
    decreases used.len() - from,
{
    if used.contains(suffixed(ideal, from)) {
        lemma_candidates_bound(used, ideal, from + 1);
        lemma_first_free_from(used, ideal, from + 1);
    } else {
        assert(is_first_free(used, ideal, from));
    }
}

/// A finite set that holds the first `count` candidates for `ideal` has at
/// least `count` elements.
pub proof fn lemma_candidates_bound(used: Set<Seq<char>>, ideal: Seq<char>, count: nat)
    requires
        used.finite(),
        forall|j: nat| j < count ==> used.contains(#[trigger] suffixed(ideal, j)),
    ensures
        count <= used.len(),
{
    let names = Seq::new(count, |i: int| suffixed(ideal, i as nat));
    assert forall|i: int, j: int| 0 <= i < count && 0 <= j < count && i != j implies names[i]
        != names[j] by {
        if names[i] == names[j] {
            lemma_suffixed_injective(ideal, i as nat, j as nat);
        }
    }
    assert forall|i: int| 0 <= i < names.len() implies used.contains(#[trigger] names[i]) by {
        assert(used.contains(suffixed(ideal, i as nat)));
    }
    lemma_distinct_names_bound(used, names);
}

/// A finite set that holds the derived-table names of all running numbers
/// below `count` has at least `count` elements.
pub proof fn lemma_cte_names_bound(used: Set<Seq<char>>, count: nat)
    requires
        used.finite(),
        forall|j: nat| j < count ==> used.contains(#[trigger] cte_name(j)),
    ensures
        count <= used.len(),
{
    let names = Seq::new(count, |i: int| cte_name(i as nat));
    assert forall|i: int, j: int| 0 <= i < count && 0 <= j < count && i != j implies names[i]
        != names[j] by {
        if names[i] == names[j] {
            lemma_cte_name_injective(i as nat, j as nat);
        }
    }
    assert forall|i: int| 0 <= i < names.len() implies used.contains(#[trigger] names[i]) by {
        assert(used.contains(cte_name(i as nat)));
    }
    lemma_distinct_names_bound(used, names);
}

/// There is only one running number for the derived table named next.
pub proof fn lemma_next_cte_index_unique(used: Set<Seq<char>>, from: nat, index: nat)
    requires
        is_next_cte_index(used, from, index),
    ensures
        next_cte_index(used, from) == index,
{
    let other = next_cte_index(used, from);
    assert(is_next_cte_index(used, from, other));
    if other < index {
        assert(used.contains(cte_name(other)));
    } else if index < other {
        assert(used.contains(cte_name(index)));
    }
}

/// Allocation never fails: over a finite set of taken names the alias handed
/// out for `ideal` is a candidate for `ideal`, is not yet taken, and every
/// earlier candidate is taken.
pub proof fn lemma_allocated_is_first_free(used: Set<Seq<char>>, ideal: Seq<char>)
    requires
        used.finite(),
    ensures
        is_first_free(used, ideal, first_free(used, ideal)),
        !used.contains(allocated(used, ideal)),
{
    lemma_first_free_from(used, ideal, 0);
}

/// There is only one first free candidate.
pub proof fn lemma_first_free_unique(used: Set<Seq<char>>, ideal: Seq<char>, index: nat)
    requires
        is_first_free(used, ideal, index),
    ensures
        first_free(used, ideal) == index,
        allocated(used, ideal) == suffixed(ideal, index),
{
    let other = first_free(used, ideal);
    assert(is_first_free(used, ideal, other));
    if other < index {
        assert(used.contains(suffixed(ideal, other)));
    } else if index < other {
        assert(used.contains(suffixed(ideal, index)));
    }
}

/// Where no name is taken, a request is handed the ideal name itself.
pub proof fn lemma_allocated_from_none(ideal: Seq<char>)
    ensures
        allocated(Set::empty(), ideal) == ideal,
{
    assert(is_first_free(Set::empty(), ideal, 0));
    lemma_first_free_unique(Set::empty(), ideal, 0);
}

/// Serving requests keeps the set of taken names finite and only adds to it.
pub proof fn lemma_used_after_grows(used: Set<Seq<char>>, ideals: Seq<Seq<char>>)
    requires
        used.finite(),
    ensures
        used_after(used, ideals).finite(),
        used.subset_of(used_after(used, ideals)),
        alias_run(used, ideals).len() == ideals.len(),
    decreases ideals.len(),
{
    if ideals.len() > 0 {
        lemma_used_after_grows(used, ideals.drop_last());
    }
}

/// Serving one more request takes the alias handed out for it.
pub proof fn lemma_used_after_step(used: Set<Seq<char>>, ideals: Seq<Seq<char>>, k: int)
    requires
        0 <= k < ideals.len(),
    ensures
        used_after(used, ideals.take(k + 1)) == used_after(used, ideals.take(k)).insert(
            nth_alias(used, ideals, k),
        ),
{
    assert(ideals.take(k + 1).drop_last() =~= ideals.take(k));
}

/// The names taken only grow while requests are served.
pub proof fn lemma_used_after_monotone(
    used: Set<Seq<char>>,
    ideals: Seq<Seq<char>>,
    k: int,
    j: int,
)
    requires
        used.finite(),
        0 <= k <= j <= ideals.len(),
    ensures
        used.subset_of(used_after(used, ideals.take(k))),
        used_after(used, ideals.take(k)).subset_of(used_after(used, ideals.take(j))),
        used_after(used, ideals.take(j)).finite(),
        used_after(used, ideals.take(ideals.len() as int)) == used_after(used, ideals),
    decreases j - k,
{
    lemma_used_after_grows(used, ideals.take(k));
    lemma_used_after_grows(used, ideals.take(j));
    assert(ideals.take(ideals.len() as int) =~= ideals);
    if k < j {
        lemma_used_after_step(used, ideals, k);
        lemma_used_after_monotone(used, ideals, k + 1, j);
    }
}

/// The alias handed out for a request was free before the request was served
/// and is taken from then on.
pub proof fn lemma_nth_alias_fresh(used: Set<Seq<char>>, ideals: Seq<Seq<char>>, k: int)
    requires
        used.finite(),
        0 <= k < ideals.len(),
    ensures
        !used.contains(nth_alias(used, ideals, k)),
        !used_after(used, ideals.take(k)).contains(nth_alias(used, ideals, k)),
        used_after(used, ideals.take(k + 1)).contains(nth_alias(used, ideals, k)),
        used_after(used, ideals).contains(nth_alias(used, ideals, k)),
{
    lemma_used_after_monotone(used, ideals, k, k);
    lemma_allocated_is_first_free(used_after(used, ideals.take(k)), ideals[k]);
    lemma_used_after_step(used, ideals, k);
    lemma_used_after_monotone(used, ideals, k + 1, ideals.len() as int);
}

/// Two requests of one run are never handed the same alias.
pub proof fn lemma_nth_alias_distinct(
    used: Set<Seq<char>>,
    ideals: Seq<Seq<char>>,
    j: int,
    k: int,
)
    requires
        used.finite(),
        0 <= j < k < ideals.len(),
    ensures
        nth_alias(used, ideals, j) != nth_alias(used, ideals, k),
{
    lemma_nth_alias_fresh(used, ideals, j);
    lemma_nth_alias_fresh(used, ideals, k);
    lemma_used_after_monotone(used, ideals, j + 1, k);
}

/// Each request of a run is handed one alias.
pub proof fn lemma_alias_run_len(used: Set<Seq<char>>, ideals: Seq<Seq<char>>)
    ensures
        alias_run(used, ideals).len() == ideals.len(),
    decreases ideals.len(),
{
    if ideals.len() > 0 {
        lemma_alias_run_len(used, ideals.drop_last());
    }
}

/// The aliases of a run are those handed out request by request.
pub proof fn lemma_alias_run_nth(used: Set<Seq<char>>, ideals: Seq<Seq<char>>, k: int)
    requires
        0 <= k < ideals.len(),
    ensures
        alias_run(used, ideals).len() == ideals.len(),
        alias_run(used, ideals)[k] == nth_alias(used, ideals, k),
    decreases ideals.len(),
{
    let front = ideals.drop_last();
    lemma_alias_run_len(used, front);
    if k == ideals.len() - 1 {
        assert(ideals.take(k) =~= front);
    } else {
        lemma_alias_run_nth(used, front, k);
        assert(front.take(k) =~= ideals.take(k));
    }
}

/// Alias uniqueness. Whatever requests are served in whatever order: no alias
/// handed out was taken before the run, every one is taken after it, and no
/// two of them are equal.
pub proof fn lemma_alias_run_distinct(used: Set<Seq<char>>, ideals: Seq<Seq<char>>)
    requires
        used.finite(),
    ensures
        forall|i: int|
            0 <= i < ideals.len() ==> !used.contains(#[trigger] alias_run(used, ideals)[i]),
        forall|i: int|
            0 <= i < ideals.len() ==> used_after(used, ideals).contains(
                #[trigger] alias_run(used, ideals)[i],
            ),
        forall|i: int, j: int|
            0 <= i < j < ideals.len() ==> alias_run(used, ideals)[i] != alias_run(used, ideals)[j],
    decreases ideals.len(),
{
    if ideals.len() > 0 {
        let front = ideals.drop_last();
        let before = used_after(used, front);
        lemma_alias_run_distinct(used, front);
        lemma_used_after_grows(used, front);
        lemma_allocated_is_first_free(before, ideals.last());
        let run = alias_run(used, ideals);
        let fresh = allocated(before, ideals.last());
        assert(run[ideals.len() - 1] == fresh);
        assert forall|i: int| 0 <= i < ideals.len() implies !used.contains(#[trigger] run[i]) by {
            if i < ideals.len() - 1 {
                assert(run[i] == alias_run(used, front)[i]);
            }
        }
        assert forall|i: int| 0 <= i < ideals.len() implies used_after(used, ideals).contains(
            #[trigger] run[i],
        ) by {
            if i < ideals.len() - 1 {
                assert(run[i] == alias_run(used, front)[i]);
            }
        }
        assert forall|i: int, j: int| 0 <= i < j < ideals.len() implies run[i] != run[j] by {
            assert(run[i] == alias_run(used, front)[i]);
            if j < ideals.len() - 1 {
                assert(run[j] == alias_run(used, front)[j]);
            } else {
                assert(before.contains(alias_run(used, front)[i]));
            }
        }
    }
}

/// Alias determinism. The aliases handed out depend on nothing but the names
/// taken at the start and the requests in their order.
pub proof fn lemma_alias_run_deterministic(
    used_a: Set<Seq<char>>,
    ideals_a: Seq<Seq<char>>,
    used_b: Set<Seq<char>>,
    ideals_b: Seq<Seq<char>>,
)
    requires
        used_a =~= used_b,
        ideals_a =~= ideals_b,
    ensures
        alias_run(used_a, ideals_a) == alias_run(used_b, ideals_b),
        used_after(used_a, ideals_a) == used_after(used_b, ideals_b),
{
}

/// The names taken within one query level. No name occurs twice.
pub struct AliasSet {
    names: Vec<String>,
}

impl View for AliasSet {
    type V = Set<Seq<char>>;

    closed spec fn view(&self) -> Set<Seq<char>> {
        self.texts().to_set()
    }
}

impl AliasSet {
    /// The taken names in the order in which they were taken.
    pub closed spec fn texts(&self) -> Seq<Seq<char>> {
        self.names@.map_values(|name: String| name@)
    }

    /// No name occurs twice.
    pub closed spec fn wf(&self) -> bool {
        self.texts().no_duplicates()
    }

    /// The set is finite and no larger than a vector can be.
    pub proof fn lemma_finite(&self)
        ensures
            self@.finite(),
            self@.len() <= usize::MAX,
    {
        broadcast use vstd::seq_lib::seq_to_set_is_finite;

        self.texts().lemma_cardinality_of_set();
        assert(self.texts().len() == self.names.len());
    }

    /// A set with no name taken.
    pub fn new() -> (r: AliasSet)
        ensures
            r.wf(),
            r@ == Set::<Seq<char>>::empty(),
    {
        let r = AliasSet { names: Vec::new() };
        assert(r.texts() =~= Seq::empty());
        assert(r@ =~= Set::<Seq<char>>::empty());
        r
    }

    /// The number of names taken.
    pub fn len(&self) -> (r: usize)
        requires
            self.wf(),
        ensures
            r == self@.len(),
    {
        proof {
            self.texts().unique_seq_to_set();
        }
        self.names.len()
    }

    /// Whether `name` is taken.
    pub fn contains(&self, name: &String) -> (r: bool)
        ensures
            r == self@.contains(name@),
    {
        let mut at: usize = 0;
        while at < self.names.len()
            invariant
                at <= self.names.len(),
                forall|i: int| 0 <= i < at ==> self.texts()[i] != name@,
            decreases self.names.len() - at,
        {
            if self.names[at] == *name {
                assert(self.texts()[at as int] == name@);
                return true;
            }
            at = at + 1;
        }
        false
    }

    /// Takes `name` if it is free. Returns whether it was free.
    pub fn insert(&mut self, name: String) -> (r: bool)
        requires
            old(self).wf(),
        ensures
            final(self).wf(),
            r == !old(self)@.contains(name@),
            final(self)@ == old(self)@.insert(name@),
    {
        if self.contains(&name) {
            assert(self@.insert(name@) =~= self@);
            false
        } else {
            let ghost before = self.texts();
            let ghost text = name@;
            self.names.push(name);
            assert(self.texts() =~= before.push(text));
            assert(self@ =~= old(self)@.insert(text)) by {
                before.lemma_push_to_set_commute(text);
            }
            true
        }
    }

    /// Hands out the first candidate for `ideal` that is free, and takes it:
    /// `ideal` itself, else `ideal_1`, `ideal_2`, and so on.
    pub fn allocate(&mut self, ideal: &str) -> (r: String)
        requires
            old(self).wf(),
        ensures
            final(self).wf(),
            r@ == allocated(old(self)@, ideal@),
            is_first_free(old(self)@, ideal@, first_free(old(self)@, ideal@)),
            !old(self)@.contains(r@),
            final(self)@ == old(self)@.insert(r@),
    {
        let mut index: usize = 0;
        loop
            invariant
                self.wf(),
                *self == *old(self),
                forall|j: nat| j < index ==> self@.contains(#[trigger] suffixed(ideal@, j)),
            decreases usize::MAX - index,
        {
            let candidate = if index == 0 {
                ideal.to_owned()
            } else {
                proof {
                    reveal_strlit("_");
                }
                let numeral = decimal_string(index);
                let r = ideal.to_owned().concat("_").concat(numeral.as_str());
                assert(r@ =~= suffixed(ideal@, index as nat));
                r
            };
            if !self.contains(&candidate) {
                proof {
                    assert(is_first_free(self@, ideal@, index as nat));
                    lemma_first_free_unique(self@, ideal@, index as nat);
                }
                let r = candidate.clone();
                self.insert(candidate);
                return r;
            }
            proof {
                self.lemma_finite();
                lemma_candidates_bound(self@, ideal@, (index + 1) as nat);
            }
            index = index + 1;
        }
    }
}

} // verus!
