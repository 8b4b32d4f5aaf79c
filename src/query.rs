use crate::archetype::MAX_COMPS_PER_ARCH;
use crate::component::{ComponentFactory, ComponentId};
use crate::entity::EntityId;
use crate::prime_key::{
    key_of, lemma_key_divides_iff_subset, lemma_key_fits, lemma_kth_prime_order,
    lemma_prime_divides_key, spec_kth_prime, valid_ids, PrimeArchKey, MAX_COMPONENTS,
};
use crate::storage::{ArchEntityStorage, ArchStorageId, ArchStorageIndex, ArchStorages};
use vstd::prelude::*;

verus! {

/// One term of a query: what it asks of a storage, and what it yields for
/// each row.
pub enum Term {
    /// A shared read of the component with this type key: the archetype must
    /// have it.
    Read(u64),
    /// An exclusive write of the component with this type key: the archetype
    /// must have it.
    Write(u64),
    /// A read of the component with this type key where the archetype has it.
    OptRead(u64),
    /// A write of the component with this type key where the archetype has
    /// it.
    OptWrite(u64),
    /// The handle of the row's entity.
    Entity,
    /// Whether the archetype has every component with these type keys.
    Has(Vec<u64>),
}

/// A predicate on the archetype of a storage.
pub enum Filter {
    /// The archetype has every component with these type keys.
    Has(Vec<u64>),
    /// The inner filter does not hold.
    Not(Box<Filter>),
    /// One of the two filters holds.
    Or(Box<Filter>, Box<Filter>),
    /// Both filters hold.
    And(Box<Filter>, Box<Filter>),
}

/// What a term yields for one row.
#[derive(Clone, Copy, Debug, PartialEq, Eq, Structural)]
pub enum Fetched {
    /// The component with this id, which the row has.
    Component(ComponentId),
    /// The component with this id where the row has it.
    Optional(Option<ComponentId>),
    /// The answer of a probe.
    Flag(bool),
    /// The handle of the row's entity.
    Entity(EntityId),
}

/// One row that a query yields: where it is, and what each term yields.
pub struct QueryRow {
    /// The storage of the row.
    pub storage: ArchStorageId,
    /// The row within the storage.
    pub row: ArchStorageIndex,
    /// What each term yields, in the order of the terms.
    pub items: Vec<Fetched>,
}

/// Why a query was refused.
#[derive(Clone, Copy, Debug, PartialEq, Eq, Structural)]
pub enum QueryError {
    /// A term or a filter names a component type that is not registered.
    UnknownComponent,
    /// More terms require a component than an archetype can hold.
    TooManyTerms,
    /// Two terms require the same component.
    DuplicateAccess,
}

/// The type key that a term requires the archetype to have, if any.
pub open spec fn required_key(t: Term) -> Option<u64> {
    match t {
        Term::Read(k) => Some(k),
        Term::Write(k) => Some(k),
        _ => None,
    }
}

/// Every type key that the terms name is registered.
pub open spec fn terms_known(terms: Seq<Term>, reg: Seq<u64>) -> bool {
    forall|i: int|
        0 <= i < terms.len() ==> match #[trigger] terms[i] {
            Term::Read(k) => reg.contains(k),
            Term::Write(k) => reg.contains(k),
            Term::OptRead(k) => reg.contains(k),
            Term::OptWrite(k) => reg.contains(k),
            Term::Entity => true,
            Term::Has(ks) => forall|j: int| 0 <= j < ks@.len() ==> reg.contains(#[trigger] ks@[j]),
        }
}

/// Every type key that the filter names is registered.
pub open spec fn filter_known(f: Filter, reg: Seq<u64>) -> bool
    decreases f,
{
    match f {
        Filter::Has(ks) => forall|j: int| 0 <= j < ks@.len() ==> reg.contains(#[trigger] ks@[j]),
        Filter::Not(g) => filter_known(*g, reg),
        Filter::Or(a, b) => filter_known(*a, reg) && filter_known(*b, reg),
        Filter::And(a, b) => filter_known(*a, reg) && filter_known(*b, reg),
    }
}

/// The ids of the components that the terms require, in order.
pub open spec fn required_ids(terms: Seq<Term>, reg: Seq<u64>) -> Seq<nat>
    decreases terms.len(),
{
    if terms.len() == 0 {
        Seq::empty()
    } else {
        let rest = required_ids(terms.drop_last(), reg);
        match required_key(terms.last()) {
            Some(k) => rest.push(reg.index_of(k) as nat),
            None => rest,
        }
    }
}

/// The archetype with key `key` has the component with type key `k`.
pub open spec fn key_has(reg: Seq<u64>, key: nat, k: u64) -> bool {
    key % spec_kth_prime(reg.index_of(k) as nat) == 0
}

/// The archetype with key `key` has every component with a type key of `ks`.
pub open spec fn has_all(ks: Seq<u64>, reg: Seq<u64>, key: nat) -> bool {
    forall|j: int| 0 <= j < ks.len() ==> key_has(reg, key, #[trigger] ks[j])
}

/// The filter holds of the archetype with key `key`.
pub open spec fn filter_holds(f: Filter, reg: Seq<u64>, key: nat) -> bool
    decreases f,
{
    match f {
        Filter::Has(ks) => has_all(ks@, reg, key),
        Filter::Not(g) => !filter_holds(*g, reg, key),
        Filter::Or(a, b) => filter_holds(*a, reg, key) || filter_holds(*b, reg, key),
        Filter::And(a, b) => filter_holds(*a, reg, key) && filter_holds(*b, reg, key),
    }
}

/// What term `t` yields at row `r` of storage `s`.
pub open spec fn fetched<V>(t: Term, reg: Seq<u64>, st: ArchEntityStorage<V>, r: int) -> Fetched {
    match t {
        Term::Read(k) => Fetched::Component(ComponentId(reg.index_of(k) as usize)),
        Term::Write(k) => Fetched::Component(ComponentId(reg.index_of(k) as usize)),
        Term::OptRead(k) => Fetched::Optional(
            if st.columns().ids().contains(reg.index_of(k) as nat) {
                Some(ComponentId(reg.index_of(k) as usize))
            } else {
                None
            },
        ),
        Term::OptWrite(k) => Fetched::Optional(
            if st.columns().ids().contains(reg.index_of(k) as nat) {
                Some(ComponentId(reg.index_of(k) as usize))
            } else {
                None
            },
        ),
        Term::Entity => Fetched::Entity(st.spec_entities()[r]),
        Term::Has(ks) => Fetched::Flag(has_all(ks@, reg, st.columns().spec_key())),
    }
}

/// The storage holds every component that the terms require, and the filter
/// holds of it.
pub open spec fn selected<V>(st: ArchEntityStorage<V>, required: Seq<nat>, filter: Option<Filter>, reg: Seq<u64>) -> bool {
    &&& forall|j: int| 0 <= j < required.len() ==> st.columns().ids().contains(#[trigger] required[j])
    &&& match filter {
        Some(f) => filter_holds(f, reg, st.columns().spec_key()),
        None => true,
    }
}

/// The places, storage then row, that a query visits among the first `n`
/// storages: every row of every selected storage, in order.
pub open spec fn query_coords<V>(
    storages: Seq<ArchEntityStorage<V>>,
    required: Seq<nat>,
    filter: Option<Filter>,
    reg: Seq<u64>,
    n: int,
) -> Seq<(nat, nat)>
    decreases n,
{
    if n <= 0 {
        Seq::empty()
    } else {
        let before = query_coords(storages, required, filter, reg, n - 1);
        if selected(storages[n - 1], required, filter, reg) {
            before + Seq::new(storages[n - 1].spec_len(), |r: int| ((n - 1) as nat, r as nat))
        } else {
            before
        }
    }
}

/// What each term yields at row `r` of storage `st`.
pub open spec fn row_items<V>(terms: Seq<Term>, reg: Seq<u64>, st: ArchEntityStorage<V>, r: int) -> Seq<Fetched> {
    terms.map_values(|t: Term| fetched(t, reg, st, r))
}

/// `rows` are the rows at `coords`, each with what the terms yield there.
pub open spec fn rows_at<V>(
    rows: Seq<QueryRow>,
    coords: Seq<(nat, nat)>,
    terms: Seq<Term>,
    reg: Seq<u64>,
    storages: Seq<ArchEntityStorage<V>>,
) -> bool {
    &&& rows.len() == coords.len()
    &&& forall|i: int|
        0 <= i < rows.len() ==> {
            &&& (#[trigger] rows[i]).storage.0 == coords[i].0
            &&& rows[i].row.0 == coords[i].1
            &&& rows[i].items@ == row_items(terms, reg, storages[coords[i].0 as int], coords[i].1 as int)
        }
}

/// The error that a query with `terms` and `filter` gives on a registry with
/// keys `reg`, if any, checked in this order.
pub open spec fn query_error(terms: Seq<Term>, filter: Option<Filter>, reg: Seq<u64>) -> Option<QueryError> {
    if !terms_known(terms, reg) || (filter.is_some() && !filter_known(filter.unwrap(), reg)) {
        Some(QueryError::UnknownComponent)
    } else if required_ids(terms, reg).len() > MAX_COMPS_PER_ARCH {
        Some(QueryError::TooManyTerms)
    } else if !required_ids(terms, reg).no_duplicates() {
        Some(QueryError::DuplicateAccess)
    } else {
        None
    }
}

/// Whether the type key `k` is registered, and its prime divides `key`.
fn key_has_exec(components: &ComponentFactory, key: PrimeArchKey, k: u64) -> (r: bool)
    requires
        components.wf(),
        components.keys().contains(k),
    ensures
        r == key_has(components.keys(), key.spec_value(), k),
{
    proof {
        components.lemma_wf();
    }
    let id = components.get_component_id_from_type_id(k).unwrap();
    proof {
        let i = components.keys().index_of(k);
        assert(components.keys()[i] == k);
        lemma_kth_prime_order(id.0 as nat, 0);
    }
    key.is_supset_of(id.prime_key())
}

/// Whether every type key of `ks` names a component whose prime divides
/// `key`.
fn has_all_exec(components: &ComponentFactory, key: PrimeArchKey, ks: &Vec<u64>) -> (r: bool)
    requires
        components.wf(),
        forall|j: int| 0 <= j < ks@.len() ==> components.keys().contains(#[trigger] ks@[j]),
    ensures
        r == has_all(ks@, components.keys(), key.spec_value()),
{
    let mut j: usize = 0;
    while j < ks.len()
        invariant
            components.wf(),
            forall|i: int| 0 <= i < ks@.len() ==> components.keys().contains(#[trigger] ks@[i]),
            0 <= j <= ks@.len(),
            forall|i: int| 0 <= i < j ==> key_has(components.keys(), key.spec_value(), #[trigger] ks@[i]),
        decreases ks@.len() - j,
    {
        if !key_has_exec(components, key, ks[j]) {
            return false;
        }
        j = j + 1;
    }
    true
}

/// Whether every type key of `ks` is registered.
fn keys_known(components: &ComponentFactory, ks: &Vec<u64>) -> (r: bool)
    requires
        components.wf(),
    ensures
        r == forall|j: int| 0 <= j < ks@.len() ==> components.keys().contains(#[trigger] ks@[j]),
{
    let mut j: usize = 0;
    while j < ks.len()
        invariant
            components.wf(),
            0 <= j <= ks@.len(),
            forall|i: int| 0 <= i < j ==> components.keys().contains(#[trigger] ks@[i]),
        decreases ks@.len() - j,
    {
        if !components.is_type_registered(ks[j]) {
            return false;
        }
        j = j + 1;
    }
    true
}

/// Whether every type key that `filter` names is registered.
fn filter_known_exec(components: &ComponentFactory, filter: &Filter) -> (r: bool)
    requires
        components.wf(),
    ensures
        r == filter_known(*filter, components.keys()),
    decreases *filter,
{
    match filter {
        Filter::Has(ks) => keys_known(components, ks),
        Filter::Not(g) => filter_known_exec(components, g),
        Filter::Or(a, b) => filter_known_exec(components, a) && filter_known_exec(components, b),
        Filter::And(a, b) => filter_known_exec(components, a) && filter_known_exec(components, b),
    }
}

/// Whether `filter` holds of the archetype with key `key`.
pub fn filter_matches(components: &ComponentFactory, filter: &Filter, key: PrimeArchKey) -> (r: bool)
    requires
        components.wf(),
        filter_known(*filter, components.keys()),
    ensures
        r == filter_holds(*filter, components.keys(), key.spec_value()),
    decreases *filter,
{
    match filter {
        Filter::Has(ks) => has_all_exec(components, key, ks),
        Filter::Not(g) => !filter_matches(components, g, key),
        Filter::Or(a, b) => filter_matches(components, a, key) || filter_matches(components, b, key),
        Filter::And(a, b) => filter_matches(components, a, key) && filter_matches(components, b, key),
    }
}

/// Whether every type key that the terms name is registered.
fn terms_known_exec(components: &ComponentFactory, terms: &Vec<Term>) -> (r: bool)
    requires
        components.wf(),
    ensures
        r == terms_known(terms@, components.keys()),
{
    let mut i: usize = 0;
    while i < terms.len()
        invariant
            components.wf(),
            0 <= i <= terms@.len(),
            terms_known(terms@.subrange(0, i as int), components.keys()),
        decreases terms@.len() - i,
    {
        let ok = match &terms[i] {
            Term::Read(k) => components.is_type_registered(*k),
            Term::Write(k) => components.is_type_registered(*k),
            Term::OptRead(k) => components.is_type_registered(*k),
            Term::OptWrite(k) => components.is_type_registered(*k),
            Term::Entity => true,
            Term::Has(ks) => keys_known(components, ks),
        };
        if !ok {
            assert(terms@.subrange(i as int, i as int + 1)[0] == terms@[i as int]);
            assert(!terms_known(terms@, components.keys())) by {
                assert(terms@[i as int] == terms@[i as int]);
            }
            return false;
        }
        assert forall|j: int| 0 <= j < i + 1 implies #[trigger] terms@.subrange(0, i as int + 1)[j] == terms@[j] by {}
        assert forall|j: int| 0 <= j < i implies #[trigger] terms@.subrange(0, i as int)[j] == terms@[j] by {}
        i = i + 1;
    }
    assert(terms@.subrange(0, terms@.len() as int) =~= terms@);
    true
}

proof fn lemma_required_prefix(terms: Seq<Term>, reg: Seq<u64>, i: int)
    requires
        0 <= i <= terms.len(),
    ensures
        required_ids(terms.subrange(0, i), reg).len() <= required_ids(terms, reg).len(),
        required_ids(terms, reg).subrange(0, required_ids(terms.subrange(0, i), reg).len() as int)
            == required_ids(terms.subrange(0, i), reg),
    decreases terms.len(),
{
    if i == terms.len() {
        assert(terms.subrange(0, i) =~= terms);
        assert(required_ids(terms, reg).subrange(0, required_ids(terms, reg).len() as int) =~= required_ids(terms, reg));
    } else {
        let init = terms.drop_last();
        assert(init.subrange(0, i) =~= terms.subrange(0, i));
        lemma_required_prefix(init, reg, i);
        let a = required_ids(init, reg);
        let b = required_ids(terms.subrange(0, i), reg);
        assert(required_ids(terms, reg).subrange(0, b.len() as int) =~= a.subrange(0, b.len() as int));
    }
}

/// The key of the components that the terms require, after checking that
/// they fit in an archetype and that none is required twice.
fn required_key_of(components: &ComponentFactory, terms: &Vec<Term>) -> (r: Result<PrimeArchKey, QueryError>)
    requires
        components.wf(),
        terms_known(terms@, components.keys()),
    ensures
        r == Err::<PrimeArchKey, QueryError>(QueryError::TooManyTerms) <==> required_ids(terms@, components.keys()).len()
            > MAX_COMPS_PER_ARCH,
        r == Err::<PrimeArchKey, QueryError>(QueryError::DuplicateAccess) <==> (required_ids(terms@, components.keys()).len()
            <= MAX_COMPS_PER_ARCH && !required_ids(terms@, components.keys()).no_duplicates()),
        r is Ok || r == Err::<PrimeArchKey, QueryError>(QueryError::TooManyTerms) || r == Err::<
            PrimeArchKey,
            QueryError,
        >(QueryError::DuplicateAccess),
        r is Ok ==> {
            &&& required_ids(terms@, components.keys()).len() <= MAX_COMPS_PER_ARCH
            &&& required_ids(terms@, components.keys()).no_duplicates()
            &&& valid_ids(required_ids(terms@, components.keys()))
            &&& r.unwrap().spec_value() == key_of(required_ids(terms@, components.keys()))
        },
{
    let ghost reg = components.keys();
    proof {
        components.lemma_wf();
    }
    let mut count: usize = 0;
    let mut i: usize = 0;
    while i < terms.len()
        invariant
            0 <= i <= terms@.len(),
            count == required_ids(terms@.subrange(0, i as int), reg).len(),
            count <= i,
        decreases terms@.len() - i,
    {
        assert(terms@.subrange(0, i as int + 1).drop_last() =~= terms@.subrange(0, i as int));
        match &terms[i] {
            Term::Read(_) => {
                count = count + 1;
            },
            Term::Write(_) => {
                count = count + 1;
            },
            _ => {},
        }
        i = i + 1;
    }
    assert(terms@.subrange(0, terms@.len() as int) =~= terms@);
    if count > MAX_COMPS_PER_ARCH {
        return Err(QueryError::TooManyTerms);
    }
    let mut key = PrimeArchKey::identity();
    let mut i: usize = 0;
    while i < terms.len()
        invariant
            components.wf(),
            reg == components.keys(),
            reg.no_duplicates(),
            reg.len() <= MAX_COMPONENTS,
            terms_known(terms@, reg),
            required_ids(terms@, reg).len() <= MAX_COMPS_PER_ARCH,
            0 <= i <= terms@.len(),
            required_ids(terms@.subrange(0, i as int), reg).no_duplicates(),
            valid_ids(required_ids(terms@.subrange(0, i as int), reg)),
            key.spec_value() == key_of(required_ids(terms@.subrange(0, i as int), reg)),
        decreases terms@.len() - i,
    {
        let ghost before = required_ids(terms@.subrange(0, i as int), reg);
        proof {
            assert(terms@.subrange(0, i as int + 1).drop_last() =~= terms@.subrange(0, i as int));
            assert(terms@.subrange(0, i as int + 1).last() == terms@[i as int]);
            lemma_required_prefix(terms@, reg, i as int + 1);
        }
        let k = match &terms[i] {
            Term::Read(k) => Some(*k),
            Term::Write(k) => Some(*k),
            _ => None,
        };
        match k {
            Some(k) => {
                assert(reg.contains(k)) by {
                    assert(terms@[i as int] == terms@[i as int]);
                }
                let id = components.get_component_id_from_type_id(k).unwrap();
                let ghost c = id.0 as nat;
                proof {
                    let t = reg.index_of(k);
                    assert(reg[t] == k);
                    lemma_prime_divides_key(before, c);
                    lemma_kth_prime_order(c, 0);
                }
                let p = id.prime_key();
                if key.is_supset_of(p) {
                    proof {
                        let after = required_ids(terms@.subrange(0, i as int + 1), reg);
                        assert(after == before.push(c));
                        let j = choose|j: int| 0 <= j < before.len() && before[j] == c;
                        assert(after[j] == after[before.len() as int]);
                        let all = required_ids(terms@, reg);
                        assert(all.subrange(0, after.len() as int) == after);
                        assert(all[j] == all[before.len() as int]);
                    }
                    return Err(QueryError::DuplicateAccess);
                }
                proof {
                    let after = required_ids(terms@.subrange(0, i as int + 1), reg);
                    assert(after == before.push(c));
                    assert(before.push(c).drop_last() =~= before);
                    assert(valid_ids(after));
                    lemma_key_fits(after);
                    assert forall|a: int, b: int| 0 <= a < after.len() && 0 <= b < after.len() && a != b implies after[a] != after[b] by {
                        if a == before.len() {
                            assert(!before.contains(c));
                            assert(before[b] == after[b]);
                        } else if b == before.len() {
                            assert(!before.contains(c));
                            assert(before[a] == after[a]);
                        }
                    }
                }
                key.merge_with(p);
            },
            None => {
                proof {
                    assert(required_ids(terms@.subrange(0, i as int + 1), reg) == before);
                }
            },
        }
        i = i + 1;
    }
    assert(terms@.subrange(0, terms@.len() as int) =~= terms@);
    Ok(key)
}

/// What each term yields at row `row` of `storage`.
fn fetch_items<V>(components: &ComponentFactory, storage: &ArchEntityStorage<V>, terms: &Vec<Term>, row: usize) -> (r: Vec<Fetched>)
    requires
        components.wf(),
        storage.wf(),
        terms_known(terms@, components.keys()),
        row < storage.spec_len(),
    ensures
        r@ == row_items(terms@, components.keys(), *storage, row as int),
{
    let ghost reg = components.keys();
    proof {
        storage.lemma_wf();
    }
    let mut items: Vec<Fetched> = Vec::new();
    let mut i: usize = 0;
    while i < terms.len()
        invariant
            components.wf(),
            reg == components.keys(),
            storage.wf(),
            terms_known(terms@, reg),
            row < storage.spec_len(),
            storage.spec_entities().len() == storage.spec_len(),
            forall|r: nat, c: nat| #[trigger] storage.columns().spec_get(r, c).is_some() <==> (r
                < storage.spec_len() && storage.columns().ids().contains(c)),
            0 <= i <= terms@.len(),
            items@.len() == i,
            forall|j: int| 0 <= j < i ==> #[trigger] items@[j] == fetched(terms@[j], reg, *storage, row as int),
        decreases terms@.len() - i,
    {
        assert(terms@[i as int] == terms@[i as int]);
        let item = match &terms[i] {
            Term::Read(k) => Fetched::Component(components.get_component_id_from_type_id(*k).unwrap()),
            Term::Write(k) => Fetched::Component(components.get_component_id_from_type_id(*k).unwrap()),
            Term::OptRead(k) => {
                let id = components.get_component_id_from_type_id(*k).unwrap();
                if storage.get_component(ArchStorageIndex(row), id).is_some() {
                    Fetched::Optional(Some(id))
                } else {
                    Fetched::Optional(None)
                }
            },
            Term::OptWrite(k) => {
                let id = components.get_component_id_from_type_id(*k).unwrap();
                if storage.get_component(ArchStorageIndex(row), id).is_some() {
                    Fetched::Optional(Some(id))
                } else {
                    Fetched::Optional(None)
                }
            },
            Term::Entity => Fetched::Entity(storage.get_entity_at_unchecked(ArchStorageIndex(row))),
            Term::Has(ks) => Fetched::Flag(has_all_exec(components, storage.prime_key(), ks)),
        };
        items.push(item);
        i = i + 1;
    }
    assert(items@ =~= row_items(terms@, reg, *storage, row as int));
    items
}

/// The rows of every storage whose archetype holds the components that the
/// terms require and of which `filter`, where given, holds; in the order the
/// storages were made and then by row, with what each term yields there.
/// Fails where a term or the filter names an unregistered type, where the
/// terms require more components than an archetype holds, or where two
/// terms require the same component.
pub fn iter_filtered_query_matches<V>(
    components: &ComponentFactory,
    storages: &ArchStorages<V>,
    terms: &Vec<Term>,
    filter: &Option<Filter>,
) -> (r: Result<Vec<QueryRow>, QueryError>)
    requires
        components.wf(),
        storages.wf(),
    ensures
        r is Err <==> query_error(terms@, *filter, components.keys()).is_some(),
        r is Err ==> r == Err::<Vec<QueryRow>, QueryError>(query_error(terms@, *filter, components.keys()).unwrap()),
        r is Ok ==> rows_at(
            r.unwrap()@,
            query_coords(
                storages.spec_storages(),
                required_ids(terms@, components.keys()),
                *filter,
                components.keys(),
                storages.spec_storages().len() as int,
            ),
            terms@,
            components.keys(),
            storages.spec_storages(),
        ),
{
    let ghost reg = components.keys();
    let known = terms_known_exec(components, terms) && match filter {
        Some(f) => filter_known_exec(components, f),
        None => true,
    };
    if !known {
        return Err(QueryError::UnknownComponent);
    }
    let key = match required_key_of(components, terms) {
        Ok(k) => k,
        Err(e) => {
            return Err(e);
        },
    };
    let ghost req = required_ids(terms@, reg);
    let ghost all = storages.spec_storages();
    proof {
        storages.lemma_wf();
    }
    let mut out: Vec<QueryRow> = Vec::new();
    let mut s: usize = 0;
    while s < storages.len()
        invariant
            components.wf(),
            reg == components.keys(),
            storages.wf(),
            all == storages.spec_storages(),
            forall|i: int| 0 <= i < all.len() ==> (#[trigger] all[i]).wf(),
            terms_known(terms@, reg),
            filter.is_some() ==> filter_known(filter.unwrap(), reg),
            req.no_duplicates(),
            valid_ids(req),
            key.spec_value() == key_of(req),
            0 <= s <= all.len(),
            rows_at(out@, query_coords(all, req, *filter, reg, s as int), terms@, reg, all),
        decreases all.len() - s,
    {
        let storage = storages.get_storage(ArchStorageId(s)).unwrap();
        proof {
            storage.lemma_wf();
            lemma_key_divides_iff_subset(storage.columns().ids(), req);
            crate::prime_key::lemma_key_bounds(req);
        }
        let wanted = storage.arch_storage().contains_archetype(key) && match filter {
            Some(f) => filter_matches(components, f, storage.prime_key()),
            None => true,
        };
        proof {
            if wanted {
                assert forall|j: int| 0 <= j < req.len() implies storage.columns().ids().contains(#[trigger] req[j]) by {
                    assert(req.contains(req[j]));
                }
            } else if storage.columns().spec_key() % key_of(req) != 0 {
                let x = choose|x: nat| req.contains(x) && !storage.columns().ids().contains(x);
                let j = choose|j: int| 0 <= j < req.len() && req[j] == x;
                assert(!storage.columns().ids().contains(req[j]));
            }
            assert(wanted == selected(all[s as int], req, *filter, reg));
        }
        if wanted {
            let len = storage.len();
            let mut row: usize = 0;
            let ghost base = query_coords(all, req, *filter, reg, s as int);
            while row < len
                invariant
                    components.wf(),
                    reg == components.keys(),
                    storage.wf(),
                    *storage == all[s as int],
                    0 <= s < all.len(),
                    len == storage.spec_len(),
                    terms_known(terms@, reg),
                    0 <= row <= len,
                    rows_at(
                        out@,
                        base + Seq::new(row as nat, |r: int| (s as nat, r as nat)),
                        terms@,
                        reg,
                        all,
                    ),
                decreases len - row,
            {
                let items = fetch_items(components, storage, terms, row);
                let ghost prev = out@;
                out.push(QueryRow { storage: ArchStorageId(s), row: ArchStorageIndex(row), items });
                proof {
                    let c0 = base + Seq::new(row as nat, |r: int| (s as nat, r as nat));
                    let c1 = base + Seq::new((row + 1) as nat, |r: int| (s as nat, r as nat));
                    assert(c1 =~= c0.push((s as nat, row as nat)));
                    assert forall|i: int| 0 <= i < out@.len() implies {
                        &&& (#[trigger] out@[i]).storage.0 == c1[i].0
                        &&& out@[i].row.0 == c1[i].1
                        &&& out@[i].items@ == row_items(terms@, reg, all[c1[i].0 as int], c1[i].1 as int)
                    } by {
                        if i < prev.len() {
                            assert(out@[i] == prev[i]);
                        }
                    }
                }
                row = row + 1;
            }
            proof {
                assert(query_coords(all, req, *filter, reg, s as int + 1) =~= base + Seq::new(
                    len as nat,
                    |r: int| (s as nat, r as nat),
                ));
            }
        } else {
            proof {
                assert(query_coords(all, req, *filter, reg, s as int + 1) == query_coords(all, req, *filter, reg, s as int));
            }
        }
        s = s + 1;
    }
    Ok(out)
}

/// The rows of every storage whose archetype holds the components that the
/// terms require, as [`iter_filtered_query_matches`] gives them with no
/// filter.
pub fn iter_query_matches<V>(components: &ComponentFactory, storages: &ArchStorages<V>, terms: &Vec<Term>) -> (r:
    Result<Vec<QueryRow>, QueryError>)
    requires
        components.wf(),
        storages.wf(),
    ensures
        r is Err <==> query_error(terms@, None, components.keys()).is_some(),
        r is Err ==> r == Err::<Vec<QueryRow>, QueryError>(query_error(terms@, None, components.keys()).unwrap()),
        r is Ok ==> rows_at(
            r.unwrap()@,
            query_coords(
                storages.spec_storages(),
                required_ids(terms@, components.keys()),
                None,
                components.keys(),
                storages.spec_storages().len() as int,
            ),
            terms@,
            components.keys(),
            storages.spec_storages(),
        ),
{
    iter_filtered_query_matches(components, storages, terms, &None)
}

proof fn lemma_single(c: nat)
    requires
        c < MAX_COMPONENTS,
    ensures
        valid_ids(seq![c]),
        seq![c].no_duplicates(),
        key_of(seq![c]) == spec_kth_prime(c),
        forall|x: nat| seq![c].contains(x) <==> x == c,
{
    let s = seq![c];
    assert(s.len() == 1 && s[0] == c);
    let e = s.drop_last();
    assert(e.len() == 0);
    assert(key_of(e) == 1);
    assert(s.last() == c);
    assert(key_of(s) == key_of(e) * spec_kth_prime(c));
    assert(s.contains(c));
}

proof fn lemma_pair(ca: nat, cb: nat)
    requires
        ca < MAX_COMPONENTS,
        cb < MAX_COMPONENTS,
        ca != cb,
    ensures
        valid_ids(seq![ca, cb]),
        seq![ca, cb].no_duplicates(),
        forall|x: nat| seq![ca, cb].contains(x) <==> (x == ca || x == cb),
{
    let pair = seq![ca, cb];
    assert(pair.len() == 2 && pair[0] == ca && pair[1] == cb);
    assert(pair.contains(ca));
    assert(pair.contains(cb));
}

/// The probe of two components holds exactly when the probe of each holds.
pub proof fn lemma_has_pair_probe(reg: Seq<u64>, key: nat, a: u64, b: u64)
    ensures
        has_all(seq![a, b], reg, key) == (has_all(seq![a], reg, key) && has_all(seq![b], reg, key)),
{
    assert(seq![a, b][0] == a);
    assert(seq![a, b][1] == b);
    assert(seq![a][0] == a);
    assert(seq![b][0] == b);
}

/// The probe of two components holds exactly when the probe of each holds;
/// and on the key of an archetype without repeated components, the key is a
/// multiple of the key of the pair exactly when it is a multiple of each
/// component's key.
pub proof fn lemma_has_pair(ids: Seq<nat>, reg: Seq<u64>, a: u64, b: u64)
    requires
        valid_ids(ids),
        ids.no_duplicates(),
        reg.contains(a),
        reg.contains(b),
        reg.index_of(a) < MAX_COMPONENTS,
        reg.index_of(b) < MAX_COMPONENTS,
        reg.index_of(a) != reg.index_of(b),
    ensures
        has_all(seq![a, b], reg, key_of(ids)) == (has_all(seq![a], reg, key_of(ids)) && has_all(seq![b], reg, key_of(ids))),
        key_of(ids) % key_of(seq![reg.index_of(a) as nat, reg.index_of(b) as nat]) == 0 <==> (key_of(ids) % key_of(
            seq![reg.index_of(a) as nat],
        ) == 0 && key_of(ids) % key_of(seq![reg.index_of(b) as nat]) == 0),
{
    let ca = reg.index_of(a) as nat;
    let cb = reg.index_of(b) as nat;
    assert(has_all(seq![a, b], reg, key_of(ids)) == (key_has(reg, key_of(ids), a) && key_has(reg, key_of(ids), b))) by {
        assert(seq![a, b][0] == a);
        assert(seq![a, b][1] == b);
    }
    assert(has_all(seq![a], reg, key_of(ids)) == key_has(reg, key_of(ids), a)) by {
        assert(seq![a][0] == a);
    }
    assert(has_all(seq![b], reg, key_of(ids)) == key_has(reg, key_of(ids), b)) by {
        assert(seq![b][0] == b);
    }
    lemma_single(ca);
    lemma_single(cb);
    lemma_pair(ca, cb);
    lemma_key_divides_iff_subset(ids, seq![ca, cb]);
    lemma_key_divides_iff_subset(ids, seq![ca]);
    lemma_key_divides_iff_subset(ids, seq![cb]);
}

/// Storages with no rows give a query no place to visit.
pub proof fn lemma_coords_of_empty_storages<V>(
    storages: Seq<ArchEntityStorage<V>>,
    required: Seq<nat>,
    filter: Option<Filter>,
    reg: Seq<u64>,
    n: int,
)
    requires
        n <= storages.len(),
        forall|i: int| 0 <= i < n ==> (#[trigger] storages[i]).spec_len() == 0,
    ensures
        query_coords(storages, required, filter, reg, n) == Seq::<(nat, nat)>::empty(),
    decreases n,
{
    if n > 0 {
        lemma_coords_of_empty_storages(storages, required, filter, reg, n - 1);
        assert(Seq::new(storages[n - 1].spec_len(), |r: int| ((n - 1) as nat, r as nat)) =~= Seq::<(nat, nat)>::empty());
        assert(Seq::<(nat, nat)>::empty() + Seq::<(nat, nat)>::empty() =~= Seq::<(nat, nat)>::empty());
    }
}

} // verus!
