use crate::archetype::{ArchetypeInfo, MAX_COMPS_PER_ARCH};
use crate::blob_vec::BlobVec;
use crate::component::{id_seq, ComponentFactory, ComponentId};
use crate::entity::EntityId;
use crate::prime_key::{
    has_repeat, key_of, lemma_key_bounds, lemma_key_divides_iff_subset, lemma_square_divides_key,
    valid_ids, PrimeArchKey,
};
use vstd::prelude::*;

verus! {

/// A row of an archetype storage.
#[derive(Clone, Copy, Debug, PartialEq, Eq, Structural)]
pub struct ArchStorageIndex(pub usize);

/// An archetype storage of the catalog, by its place in it.
#[derive(Clone, Copy, Debug, PartialEq, Eq, Structural)]
pub struct ArchStorageId(pub usize);

/// The component numbers of a bundle.
pub open spec fn bundle_ids<V>(bundle: Seq<(ComponentId, V)>) -> Seq<nat> {
    bundle.map_values(|p: (ComponentId, V)| p.0.0 as nat)
}

/// The value that a bundle holds for component `c`.
pub open spec fn bundle_value<V>(bundle: Seq<(ComponentId, V)>, c: nat) -> V {
    bundle[bundle_ids(bundle).index_of(c)].1
}

/// Some entry of `all` from place `m` on is for component `c`.
spec fn pushed_from<V>(all: Seq<(ComponentId, V)>, m: int, c: nat) -> bool {
    exists|k: int| m <= k < all.len() && bundle_ids(all)[k] == c
}

/// A column of component `c` once the entries of `all` from place `m` on are
/// stored.
spec fn column_after<V>(col: Seq<V>, all: Seq<(ComponentId, V)>, m: int, c: nat) -> Seq<V> {
    if pushed_from(all, m, c) {
        col.push(bundle_value(all, c))
    } else {
        col
    }
}

/// The columns of one archetype: one column per component, all of the same
/// length.
pub struct ArchStorage<V> {
    comp_indexes: Vec<ComponentId>,
    comp_storage: Vec<BlobVec<V>>,
    prime_key: PrimeArchKey,
    len: usize,
}

impl<V> ArchStorage<V> {
    /// The component numbers, in the order of the columns.
    pub closed spec fn ids(&self) -> Seq<nat> {
        id_seq(self.comp_indexes@)
    }

    /// The key of the archetype.
    pub closed spec fn spec_key(&self) -> nat {
        self.prime_key.spec_value()
    }

    /// The number of rows.
    pub closed spec fn spec_len(&self) -> nat {
        self.len as nat
    }

    /// The value of component `c` at row `row`, where the archetype has `c` and
    /// the row exists.
    pub closed spec fn spec_get(&self, row: nat, c: nat) -> Option<V> {
        if self.ids().contains(c) && row < self.len {
            Some(self.comp_storage@[self.ids().index_of(c)]@[row as int])
        } else {
            None
        }
    }

    /// One column per component, no component twice, the key is the product
    /// of their primes, and every column is as long as the storage.
    pub closed spec fn wf(&self) -> bool {
        &&& self.ids_wf()
        &&& self.ids().len() <= MAX_COMPS_PER_ARCH
        &&& self.prime_key.spec_value() == key_of(self.ids())
        &&& self.comp_storage@.len() == self.comp_indexes@.len()
        &&& forall|j: int|
            0 <= j < self.comp_storage@.len() ==> (#[trigger] self.comp_storage@[j]).wf()
                && self.comp_storage@[j]@.len() == self.len
    }

    /// The components are in the prime table, each once.
    closed spec fn ids_wf(&self) -> bool {
        &&& valid_ids(self.ids())
        &&& self.ids().no_duplicates()
    }

    proof fn lemma_index_of(&self, j: int)
        requires
            self.ids_wf(),
            0 <= j < self.ids().len(),
        ensures
            self.ids().contains(self.ids()[j]),
            self.ids().index_of(self.ids()[j]) == j,
    {
        let c = self.ids()[j];
        assert(self.ids().contains(c));
        let k = self.ids().index_of(c);
        assert(self.ids()[k] == c);
    }

    /// A storage with no rows for the archetype that `arch_info` describes, or
    /// `None` where a component of it is not registered or occurs twice, or
    /// where it has more than [`MAX_COMPS_PER_ARCH`] components.
    pub fn new(comp_factory: &ComponentFactory, arch_info: &ArchetypeInfo) -> (r: Option<ArchStorage<V>>)
        requires
            comp_factory.wf(),
            arch_info.wf(),
        ensures
            r.is_some() == (arch_info.ids().no_duplicates() && arch_info.ids().len()
                <= MAX_COMPS_PER_ARCH && forall|j: int|
                0 <= j < arch_info.ids().len() ==> #[trigger] arch_info.ids()[j] < comp_factory.infos().len()),
            r.is_some() ==> {
                let s = r.unwrap();
                &&& s.wf()
                &&& s.ids() == arch_info.ids()
                &&& s.spec_key() == arch_info.spec_key()
                &&& s.spec_len() == 0
            },
    {
        if arch_info.check_for_duplicates() {
            return None;
        }
        let components = arch_info.component_ids();
        if components.len() > MAX_COMPS_PER_ARCH {
            return None;
        }
        let mut comp_storage: Vec<BlobVec<V>> = Vec::new();
        let mut i: usize = 0;
        while i < components.len()
            invariant
                0 <= i <= components@.len(),
                id_seq(components@) == arch_info.ids(),
                comp_factory.wf(),
                comp_storage@.len() == i,
                forall|j: int| 0 <= j < i ==> #[trigger] arch_info.ids()[j] < comp_factory.infos().len(),
                forall|j: int|
                    0 <= j < i ==> (#[trigger] comp_storage@[j]).wf() && comp_storage@[j]@.len() == 0,
            decreases components@.len() - i,
        {
            assert(arch_info.ids()[i as int] == components@[i as int].0);
            match comp_factory.new_component_storage(components[i]) {
                Some(column) => comp_storage.push(column),
                None => {
                    return None;
                },
            }
            i = i + 1;
        }
        let mut comp_indexes: Vec<ComponentId> = Vec::new();
        let mut k: usize = 0;
        while k < components.len()
            invariant
                0 <= k <= components@.len(),
                comp_indexes@ == components@.subrange(0, k as int),
            decreases components@.len() - k,
        {
            comp_indexes.push(components[k]);
            k = k + 1;
        }
        assert(comp_indexes@ =~= components@);
        proof {
            arch_info.lemma_wf();
        }
        Some(ArchStorage { comp_indexes, comp_storage, prime_key: arch_info.prime_key(), len: 0 })
    }

    /// The number of rows.
    pub fn len(&self) -> (r: usize)
        ensures
            r == self.spec_len(),
    {
        self.len
    }

    /// Whether the storage has no rows.
    pub fn is_empty(&self) -> (r: bool)
        ensures
            r == (self.spec_len() == 0),
    {
        self.len == 0
    }

    /// The key of the archetype.
    pub fn prime_key(&self) -> (r: PrimeArchKey)
        ensures
            r.spec_value() == self.spec_key(),
    {
        self.prime_key
    }

    /// The components of the archetype, in the order of the columns.
    pub fn component_ids(&self) -> (r: &Vec<ComponentId>)
        ensures
            id_seq(r@) == self.ids(),
    {
        &self.comp_indexes
    }

    /// The column of component `comp_id`, where the archetype has it.
    fn column_of(&self, comp_id: ComponentId) -> (r: Option<usize>)
        requires
            self.ids_wf(),
        ensures
            r.is_some() == self.ids().contains(comp_id.0 as nat),
            r.is_some() ==> r.unwrap() == self.ids().index_of(comp_id.0 as nat) && r.unwrap()
                < self.ids().len(),
    {
        let mut j: usize = 0;
        while j < self.comp_indexes.len()
            invariant
                self.ids_wf(),
                0 <= j <= self.ids().len(),
                forall|k: int| 0 <= k < j ==> self.ids()[k] != comp_id.0 as nat,
            decreases self.ids().len() - j,
        {
            assert(self.ids()[j as int] == self.comp_indexes@[j as int].0);
            if self.comp_indexes[j].0 == comp_id.0 {
                proof {
                    self.lemma_index_of(j as int);
                }
                return Some(j);
            }
            j = j + 1;
        }
        None
    }

    /// Adds one row holding the values of `bundle`, whose components are
    /// exactly those of the archetype, each once. Gives the new row.
    pub fn store_bundle_unchecked(&mut self, bundle: Vec<(ComponentId, V)>) -> (r: ArchStorageIndex)
        requires
            old(self).wf(),
            old(self).spec_len() < usize::MAX,
            bundle_ids(bundle@).no_duplicates(),
            forall|c: nat| bundle_ids(bundle@).contains(c) <==> old(self).ids().contains(c),
        ensures
            final(self).wf(),
            r.0 == old(self).spec_len(),
            final(self).spec_len() == old(self).spec_len() + 1,
            final(self).ids() == old(self).ids(),
            final(self).spec_key() == old(self).spec_key(),
            forall|row: nat, c: nat|
                row < old(self).spec_len() ==> #[trigger] final(self).spec_get(row, c) == old(self).spec_get(row, c),
            forall|c: nat|
                old(self).ids().contains(c) ==> #[trigger] final(self).spec_get(
                    old(self).spec_len(),
                    c,
                ) == Some(bundle_value(bundle@, c)),
            forall|c: nat|
                !old(self).ids().contains(c) ==> #[trigger] final(self).spec_get(
                    old(self).spec_len(),
                    c,
                ) == None::<V>,
    {
        let ghost all = bundle@;
        let mut bundle = bundle;
        while bundle.len() > 0
            invariant
                old(self).wf(),
                old(self).spec_len() < usize::MAX,
                bundle_ids(all).no_duplicates(),
                forall|c: nat| bundle_ids(all).contains(c) <==> old(self).ids().contains(c),
                bundle@.len() <= all.len(),
                bundle@ == all.subrange(0, bundle@.len() as int),
                self.comp_indexes == old(self).comp_indexes,
                self.ids_wf(),
                self.prime_key == old(self).prime_key,
                self.len == old(self).len,
                self.comp_storage@.len() == old(self).comp_storage@.len(),
                forall|j: int|
                    0 <= j < self.comp_storage@.len() ==> (#[trigger] self.comp_storage@[j]).wf()
                        && self.comp_storage@[j]@ == column_after(
                        old(self).comp_storage@[j]@,
                        all,
                        bundle@.len() as int,
                        self.ids()[j],
                    ),
            decreases bundle@.len(),
        {
            let ghost n = bundle@.len() as int;
            let (cid, value) = bundle.pop().unwrap();
            assert(bundle_ids(all)[n - 1] == cid.0 as nat);
            assert(bundle_ids(all).contains(cid.0 as nat));
            let j = self.column_of(cid).unwrap();
            proof {
                assert(bundle_ids(all).index_of(cid.0 as nat) == n - 1) by {
                    let t = bundle_ids(all).index_of(cid.0 as nat);
                    assert(bundle_ids(all)[t] == cid.0 as nat);
                }
                assert(bundle_value(all, cid.0 as nat) == value);
                assert(self.ids()[j as int] == cid.0 as nat);
                assert forall|k: int| n <= k < all.len() implies bundle_ids(all)[k] != cid.0 as nat by {}
            }
            let ghost before = self.comp_storage@;
            self.comp_storage[j].push(value);
            proof {
                assert forall|i: int| 0 <= i < self.comp_storage@.len() implies (
                #[trigger] self.comp_storage@[i]).wf() && self.comp_storage@[i]@ == column_after(
                    old(self).comp_storage@[i]@,
                    all,
                    bundle@.len() as int,
                    self.ids()[i],
                ) by {
                    let c = self.ids()[i];
                    if i == j {
                        assert(!pushed_from(all, n, c));
                        assert(bundle_ids(all)[n - 1] == c);
                        assert(pushed_from(all, n - 1, c));
                    } else {
                        assert(c != cid.0 as nat);
                        assert(self.comp_storage@[i] == before[i]);
                        if pushed_from(all, n, c) {
                            let k = choose|k: int| n <= k < all.len() && bundle_ids(all)[k] == c;
                            assert(n - 1 <= k);
                        }
                        if pushed_from(all, n - 1, c) {
                            let k = choose|k: int| n - 1 <= k < all.len() && bundle_ids(all)[k] == c;
                            assert(k != n - 1);
                        }
                    }
                }
            }
        }
        self.len = self.len + 1;
        proof {
            assert forall|j: int| 0 <= j < self.comp_storage@.len() implies (
            #[trigger] self.comp_storage@[j]).wf() && self.comp_storage@[j]@ == old(self).comp_storage@[j]@.push(bundle_value(all, self.ids()[j])) by {
                let c = self.ids()[j];
                assert(old(self).ids().contains(c));
                let k = bundle_ids(all).index_of(c);
                assert(bundle_ids(all)[k] == c);
                assert(pushed_from(all, 0, c));
            }
            assert forall|row: nat, c: nat| row < old(self).spec_len() implies #[trigger] self.spec_get(row, c)
                == old(self).spec_get(row, c) by {
                if self.ids().contains(c) {
                    let j = self.ids().index_of(c);
                    assert(self.ids()[j] == c);
                }
            }
            assert forall|c: nat| old(self).ids().contains(c) implies #[trigger] self.spec_get(
                old(self).spec_len(),
                c,
            ) == Some(bundle_value(all, c)) by {
                let j = self.ids().index_of(c);
                assert(self.ids()[j] == c);
                let k = bundle_ids(all).index_of(c);
                assert(bundle_ids(all)[k] == c);
            }
        }
        ArchStorageIndex(self.len - 1)
    }

    /// Adds one row holding the values of `bundle`, where the bundle's key is
    /// the storage's key. Gives the new row, or `None` where the keys differ.
    pub fn store_bundle(&mut self, bundle: Vec<(ComponentId, V)>) -> (r: Option<ArchStorageIndex>)
        requires
            old(self).wf(),
            old(self).spec_len() < usize::MAX,
        ensures
            final(self).wf(),
            r.is_some() == (valid_ids(bundle_ids(bundle@)) && key_of(bundle_ids(bundle@)) == old(self).spec_key()),
            r.is_none() ==> *final(self) == *old(self),
            r.is_some() ==> {
                &&& r.unwrap().0 == old(self).spec_len()
                &&& final(self).spec_len() == old(self).spec_len() + 1
                &&& final(self).ids() == old(self).ids()
                &&& final(self).spec_key() == old(self).spec_key()
                &&& forall|row: nat, c: nat|
                    row < old(self).spec_len() ==> #[trigger] final(self).spec_get(row, c) == old(self).spec_get(row, c)
                &&& forall|c: nat|
                    old(self).ids().contains(c) ==> #[trigger] final(self).spec_get(
                        old(self).spec_len(),
                        c,
                    ) == Some(bundle_value(bundle@, c))
                &&& forall|c: nat|
                    !old(self).ids().contains(c) ==> #[trigger] final(self).spec_get(
                        old(self).spec_len(),
                        c,
                    ) == None::<V>
            },
    {
        let mut ids: Vec<ComponentId> = Vec::new();
        let mut i: usize = 0;
        while i < bundle.len()
            invariant
                0 <= i <= bundle@.len(),
                ids@.len() == i,
                forall|j: int| 0 <= j < i ==> #[trigger] ids@[j] == bundle@[j].0,
            decreases bundle@.len() - i,
        {
            ids.push(bundle[i].0);
            i = i + 1;
        }
        assert(id_seq(ids@) =~= bundle_ids(bundle@));
        match ArchetypeInfo::from_ids(&ids) {
            None => None,
            Some(info) => {
                proof {
                    info.lemma_wf();
                }
                if info.prime_key().is_exact(self.prime_key) {
                    proof {
                        let b = bundle_ids(bundle@);
                        let s = self.ids();
                        assert forall|x: int, y: int| 0 <= x < b.len() && 0 <= y < b.len() && x != y implies b[x]
                            != b[y] by {
                            if b[x] == b[y] {
                                lemma_square_divides_key(b, b[x]);
                                lemma_square_divides_key(s, b[x]);
                                if x < y {
                                    assert(has_repeat(b, b[x]));
                                } else {
                                    assert(has_repeat(b, b[y]));
                                }
                                let (u, v) = choose|u: int, v: int| 0 <= u < v < s.len() && s[u] == b[x] && s[v] == b[x];
                            }
                        }
                        lemma_key_bounds(s);
                        assert(key_of(b) % key_of(s) == 0) by {
                            vstd::arithmetic::div_mod::lemma_mod_self_0(key_of(s) as int);
                        }
                        lemma_key_divides_iff_subset(b, s);
                        lemma_key_divides_iff_subset(s, b);
                    }
                    Some(self.store_bundle_unchecked(bundle))
                } else {
                    None
                }
            },
        }
    }

    /// The value of component `comp_id` at row `index`, where both exist.
    pub fn get_component(&self, index: ArchStorageIndex, comp_id: ComponentId) -> (r: Option<&V>)
        requires
            self.wf(),
        ensures
            r.is_some() == self.spec_get(index.0 as nat, comp_id.0 as nat).is_some(),
            r.is_some() ==> *r.unwrap() == self.spec_get(index.0 as nat, comp_id.0 as nat).unwrap(),
    {
        if index.0 < self.len {
            match self.column_of(comp_id) {
                Some(j) => Some(self.comp_storage[j].get_unchecked(index.0)),
                None => None,
            }
        } else {
            None
        }
    }

    /// The value of component `comp_id` at row `index`, both of which exist.
    pub fn get_component_unchecked(&self, index: ArchStorageIndex, comp_id: ComponentId) -> (r: &V)
        requires
            self.wf(),
            self.spec_get(index.0 as nat, comp_id.0 as nat).is_some(),
        ensures
            *r == self.spec_get(index.0 as nat, comp_id.0 as nat).unwrap(),
    {
        let j = self.column_of(comp_id).unwrap();
        self.comp_storage[j].get_unchecked(index.0)
    }

    /// The value of component `comp_id` at row `index`, to be changed in
    /// place, where both exist.
    pub fn get_component_mut(&mut self, index: ArchStorageIndex, comp_id: ComponentId) -> (r: Option<&mut V>)
        requires
            old(self).wf(),
        ensures
            r.is_some() == old(self).spec_get(index.0 as nat, comp_id.0 as nat).is_some(),
            r.is_none() ==> *final(self) == *old(self),
            r.is_some() ==> {
                &&& *r.unwrap() == old(self).spec_get(index.0 as nat, comp_id.0 as nat).unwrap()
                &&& final(self).wf()
                &&& final(self).ids() == old(self).ids()
                &&& final(self).spec_key() == old(self).spec_key()
                &&& final(self).spec_len() == old(self).spec_len()
                &&& final(self).spec_get(index.0 as nat, comp_id.0 as nat) == Some(*final(r.unwrap()))
                &&& forall|row: nat, c: nat|
                    (row != index.0 || c != comp_id.0) ==> #[trigger] final(self).spec_get(row, c)
                        == old(self).spec_get(row, c)
            },
    {
        if index.0 < self.len {
            match self.column_of(comp_id) {
                Some(j) => {
                    proof {
                        self.lemma_index_of(j as int);
                    }
                    let r = self.get_component_mut_at(index.0, j);
                    Some(r)
                },
                None => None,
            }
        } else {
            None
        }
    }

    /// The value of component `comp_id` at row `index`, both of which exist,
    /// to be changed in place.
    pub fn get_component_mut_unchecked(&mut self, index: ArchStorageIndex, comp_id: ComponentId) -> (r: &mut V)
        requires
            old(self).wf(),
            old(self).spec_get(index.0 as nat, comp_id.0 as nat).is_some(),
        ensures
            *r == old(self).spec_get(index.0 as nat, comp_id.0 as nat).unwrap(),
            final(self).wf(),
            final(self).ids() == old(self).ids(),
            final(self).spec_key() == old(self).spec_key(),
            final(self).spec_len() == old(self).spec_len(),
            final(self).spec_get(index.0 as nat, comp_id.0 as nat) == Some(*final(r)),
            forall|row: nat, c: nat|
                (row != index.0 || c != comp_id.0) ==> #[trigger] final(self).spec_get(row, c) == old(self).spec_get(row, c),
    {
        let j = self.column_of(comp_id).unwrap();
        proof {
            self.lemma_index_of(j as int);
        }
        self.get_component_mut_at(index.0, j)
    }

    fn get_component_mut_at(&mut self, row: usize, j: usize) -> (r: &mut V)
        requires
            old(self).wf(),
            row < old(self).spec_len(),
            j < old(self).ids().len(),
        ensures
            *r == old(self).comp_storage@[j as int]@[row as int],
            final(self).wf(),
            final(self).comp_indexes == old(self).comp_indexes,
            final(self).prime_key == old(self).prime_key,
            final(self).len == old(self).len,
            final(self).comp_storage@.len() == old(self).comp_storage@.len(),
            final(self).comp_storage@[j as int]@ == old(self).comp_storage@[j as int]@.update(
                row as int,
                *final(r),
            ),
            forall|k: int| 0 <= k < old(self).comp_storage@.len() && k != j ==> #[trigger] final(self).comp_storage@[k]
                == old(self).comp_storage@[k],
    {
        self.comp_storage[j].get_mut_unchecked(row)
    }

    /// Removes row `index` and drops its values, moving the last row into its
    /// place.
    pub fn swap_remove_unchecked(&mut self, index: ArchStorageIndex)
        requires
            old(self).wf(),
            index.0 < old(self).spec_len(),
        ensures
            final(self).wf(),
            final(self).spec_len() + 1 == old(self).spec_len(),
            final(self).ids() == old(self).ids(),
            final(self).spec_key() == old(self).spec_key(),
            forall|c: nat|
                index.0 < final(self).spec_len() ==> #[trigger] final(self).spec_get(index.0 as nat, c)
                    == old(self).spec_get((old(self).spec_len() - 1) as nat, c),
            forall|row: nat, c: nat|
                row < final(self).spec_len() && row != index.0 ==> #[trigger] final(self).spec_get(row, c)
                    == old(self).spec_get(row, c),
    {
        let mut j: usize = 0;
        while j < self.comp_storage.len()
            invariant
                old(self).wf(),
                index.0 < old(self).spec_len(),
                self.comp_indexes == old(self).comp_indexes,
                self.prime_key == old(self).prime_key,
                self.len == old(self).len,
                self.comp_storage@.len() == old(self).comp_storage@.len(),
                0 <= j <= self.comp_storage@.len(),
                forall|k: int|
                    0 <= k < self.comp_storage@.len() ==> (#[trigger] self.comp_storage@[k]).wf() && (k
                        < j ==> self.comp_storage@[k]@ == old(self).comp_storage@[k]@.update(
                        index.0 as int,
                        old(self).comp_storage@[k]@.last(),
                    ).drop_last()) && (k >= j ==> self.comp_storage@[k] == old(self).comp_storage@[k]),
            decreases self.comp_storage@.len() - j,
        {
            self.comp_storage[j].swap_remove_and_drop_unchecked(index.0);
            j = j + 1;
        }
        self.len = self.len - 1;
        proof {
            assert forall|c: nat| index.0 < self.spec_len() implies #[trigger] self.spec_get(index.0 as nat, c)
                == old(self).spec_get((old(self).spec_len() - 1) as nat, c) by {
                if self.ids().contains(c) {
                    let k = self.ids().index_of(c);
                    assert(self.ids()[k] == c);
                }
            }
            assert forall|row: nat, c: nat| row < self.spec_len() && row != index.0 implies #[trigger] self.spec_get(
                row,
                c,
            ) == old(self).spec_get(row, c) by {
                if self.ids().contains(c) {
                    let k = self.ids().index_of(c);
                    assert(self.ids()[k] == c);
                }
            }
        }
    }

    /// Whether the archetype holds every component of the archetype with key
    /// `required`.
    pub fn contains_archetype(&self, required: PrimeArchKey) -> (r: bool)
        requires
            required.spec_value() > 0,
        ensures
            r == (self.spec_key() % required.spec_value() == 0),
    {
        self.prime_key.is_supset_of(required)
    }
}

/// One archetype storage with the handle of the entity of each row.
pub struct ArchEntityStorage<V> {
    arch_storage: ArchStorage<V>,
    entities: Vec<EntityId>,
}

impl<V> ArchEntityStorage<V> {
    /// The columns.
    pub closed spec fn columns(&self) -> ArchStorage<V> {
        self.arch_storage
    }

    /// The handle of the entity of each row.
    pub closed spec fn spec_entities(&self) -> Seq<EntityId> {
        self.entities@
    }

    /// The number of rows.
    pub open spec fn spec_len(&self) -> nat {
        self.columns().spec_len()
    }

    /// The columns are well formed and there is one handle per row.
    pub closed spec fn wf(&self) -> bool {
        &&& self.arch_storage.wf()
        &&& self.entities@.len() == self.arch_storage.spec_len()
    }

    /// What a well-formed storage holds.
    pub proof fn lemma_wf(&self)
        requires
            self.wf(),
        ensures
            self.spec_entities().len() == self.spec_len(),
            self.columns().ids().no_duplicates(),
            valid_ids(self.columns().ids()),
            self.columns().ids().len() <= MAX_COMPS_PER_ARCH,
            self.columns().spec_key() == key_of(self.columns().ids()),
            forall|row: nat, c: nat| #[trigger] self.columns().spec_get(row, c).is_some() <==> (row
                < self.spec_len() && self.columns().ids().contains(c)),
    {
    }

    /// A storage with no rows for the archetype that `arch_info` describes, as
    /// [`ArchStorage::new`] makes it.
    pub fn new(compf: &ComponentFactory, arch_info: &ArchetypeInfo) -> (r: Option<ArchEntityStorage<V>>)
        requires
            compf.wf(),
            arch_info.wf(),
        ensures
            r.is_some() == (arch_info.ids().no_duplicates() && arch_info.ids().len()
                <= MAX_COMPS_PER_ARCH && forall|j: int|
                0 <= j < arch_info.ids().len() ==> #[trigger] arch_info.ids()[j] < compf.infos().len()),
            r.is_some() ==> {
                let s = r.unwrap();
                &&& s.wf()
                &&& s.columns().ids() == arch_info.ids()
                &&& s.columns().spec_key() == arch_info.spec_key()
                &&& s.spec_len() == 0
            },
    {
        match ArchStorage::new(compf, arch_info) {
            Some(arch_storage) => Some(ArchEntityStorage { arch_storage, entities: Vec::new() }),
            None => None,
        }
    }

    /// The number of rows.
    pub fn len(&self) -> (r: usize)
        ensures
            r == self.spec_len(),
    {
        self.arch_storage.len()
    }

    /// The row that the next stored entity gets.
    pub fn next_index(&self) -> (r: ArchStorageIndex)
        ensures
            r.0 == self.spec_len(),
    {
        ArchStorageIndex(self.arch_storage.len())
    }

    /// The key of the archetype.
    pub fn prime_key(&self) -> (r: PrimeArchKey)
        ensures
            r.spec_value() == self.columns().spec_key(),
    {
        self.arch_storage.prime_key()
    }

    /// The columns.
    pub fn arch_storage(&self) -> (r: &ArchStorage<V>)
        ensures
            *r == self.columns(),
    {
        &self.arch_storage
    }

    /// Adds a row for `entity_id` holding the values of `bundle`, where the
    /// bundle's key is the storage's key. Gives the new row, or `None` where
    /// the keys differ.
    pub fn store_entity(&mut self, entity_id: EntityId, bundle: Vec<(ComponentId, V)>) -> (r: Option<
        ArchStorageIndex,
    >)
        requires
            old(self).wf(),
            old(self).spec_len() < usize::MAX,
        ensures
            final(self).wf(),
            r.is_some() == (valid_ids(bundle_ids(bundle@)) && key_of(bundle_ids(bundle@)) == old(self).columns().spec_key()),
            r.is_none() ==> *final(self) == *old(self),
            r.is_some() ==> {
                &&& r.unwrap().0 == old(self).spec_len()
                &&& final(self).spec_len() == old(self).spec_len() + 1
                &&& final(self).spec_entities() == old(self).spec_entities().push(entity_id)
                &&& final(self).columns().ids() == old(self).columns().ids()
                &&& final(self).columns().spec_key() == old(self).columns().spec_key()
                &&& forall|row: nat, c: nat|
                    row < old(self).spec_len() ==> #[trigger] final(self).columns().spec_get(row, c)
                        == old(self).columns().spec_get(row, c)
                &&& forall|c: nat|
                    old(self).columns().ids().contains(c) ==> #[trigger] final(self).columns().spec_get(
                        old(self).spec_len(),
                        c,
                    ) == Some(bundle_value(bundle@, c))
                &&& forall|c: nat|
                    !old(self).columns().ids().contains(c) ==> #[trigger] final(self).columns().spec_get(old(self).spec_len(), c) == None::<V>
            },
    {
        let r = self.arch_storage.store_bundle(bundle);
        if r.is_some() {
            self.entities.push(entity_id);
        }
        r
    }

    /// The value of component `comp_id` at row `index`, where both exist.
    pub fn get_component(&self, index: ArchStorageIndex, comp_id: ComponentId) -> (r: Option<&V>)
        requires
            self.wf(),
        ensures
            r.is_some() == self.columns().spec_get(index.0 as nat, comp_id.0 as nat).is_some(),
            r.is_some() ==> *r.unwrap() == self.columns().spec_get(index.0 as nat, comp_id.0 as nat).unwrap(),
    {
        self.arch_storage.get_component(index, comp_id)
    }

    /// The value of component `comp_id` at row `index`, to be changed in
    /// place, where both exist.
    pub fn get_component_mut(&mut self, index: ArchStorageIndex, comp_id: ComponentId) -> (r: Option<&mut V>)
        requires
            old(self).wf(),
        ensures
            r.is_some() == old(self).columns().spec_get(index.0 as nat, comp_id.0 as nat).is_some(),
            r.is_none() ==> *final(self) == *old(self),
            r.is_some() ==> {
                &&& *r.unwrap() == old(self).columns().spec_get(index.0 as nat, comp_id.0 as nat).unwrap()
                &&& final(self).wf()
                &&& final(self).spec_entities() == old(self).spec_entities()
                &&& final(self).columns().ids() == old(self).columns().ids()
                &&& final(self).columns().spec_key() == old(self).columns().spec_key()
                &&& final(self).spec_len() == old(self).spec_len()
                &&& final(self).columns().spec_get(index.0 as nat, comp_id.0 as nat) == Some(*final(r.unwrap()))
                &&& forall|row: nat, c: nat|
                    (row != index.0 || c != comp_id.0) ==> #[trigger] final(self).columns().spec_get(row, c)
                        == old(self).columns().spec_get(row, c)
            },
    {
        self.arch_storage.get_component_mut(index, comp_id)
    }

    /// The value of component `comp_id` at row `index`, both of which exist,
    /// to be changed in place.
    pub fn get_component_mut_unchecked(&mut self, index: ArchStorageIndex, comp_id: ComponentId) -> (r: &mut V)
        requires
            old(self).wf(),
            old(self).columns().spec_get(index.0 as nat, comp_id.0 as nat).is_some(),
        ensures
            *r == old(self).columns().spec_get(index.0 as nat, comp_id.0 as nat).unwrap(),
            final(self).wf(),
            final(self).spec_entities() == old(self).spec_entities(),
            final(self).columns().ids() == old(self).columns().ids(),
            final(self).columns().spec_key() == old(self).columns().spec_key(),
            final(self).spec_len() == old(self).spec_len(),
            final(self).columns().spec_get(index.0 as nat, comp_id.0 as nat) == Some(*final(r)),
            forall|row: nat, c: nat|
                (row != index.0 || c != comp_id.0) ==> #[trigger] final(self).columns().spec_get(row, c)
                    == old(self).columns().spec_get(row, c),
    {
        self.arch_storage.get_component_mut_unchecked(index, comp_id)
    }

    /// The handle of the entity at row `index`, where the row exists.
    pub fn get_entity_at(&self, index: ArchStorageIndex) -> (r: Option<EntityId>)
        requires
            self.wf(),
        ensures
            r.is_some() == (index.0 < self.spec_len()),
            r.is_some() ==> r.unwrap() == self.spec_entities()[index.0 as int],
    {
        if index.0 < self.entities.len() {
            Some(self.entities[index.0])
        } else {
            None
        }
    }

    /// The handle of the entity at row `index`, which exists.
    pub fn get_entity_at_unchecked(&self, index: ArchStorageIndex) -> (r: EntityId)
        requires
            self.wf(),
            index.0 < self.spec_len(),
        ensures
            r == self.spec_entities()[index.0 as int],
    {
        self.entities[index.0]
    }

    /// Removes row `index` and drops its values, moving the last row into its
    /// place. Gives the handle of the entity that moved, or `None` where the
    /// removed row was the last one.
    pub fn swap_remove(&mut self, index: ArchStorageIndex) -> (r: Option<EntityId>)
        requires
            old(self).wf(),
            index.0 < old(self).spec_len(),
        ensures
            final(self).wf(),
            final(self).spec_len() + 1 == old(self).spec_len(),
            final(self).spec_entities() == old(self).spec_entities().update(
                index.0 as int,
                old(self).spec_entities().last(),
            ).drop_last(),
            final(self).columns().ids() == old(self).columns().ids(),
            final(self).columns().spec_key() == old(self).columns().spec_key(),
            r.is_some() == (index.0 < final(self).spec_len()),
            r.is_some() ==> r.unwrap() == old(self).spec_entities().last(),
            forall|c: nat|
                index.0 < final(self).spec_len() ==> #[trigger] final(self).columns().spec_get(
                    index.0 as nat,
                    c,
                ) == old(self).columns().spec_get((old(self).spec_len() - 1) as nat, c),
            forall|row: nat, c: nat|
                row < final(self).spec_len() && row != index.0 ==> #[trigger] final(self).columns().spec_get(row, c) == old(self).columns().spec_get(row, c),
    {
        self.entities.swap_remove(index.0);
        self.arch_storage.swap_remove_unchecked(index);
        self.get_entity_at(index)
    }
}

/// The catalog of archetype storages, at most one per archetype, in the order
/// they were made.
pub struct ArchStorages<V> {
    storages: Vec<ArchEntityStorage<V>>,
    pkeys: Vec<PrimeArchKey>,
}

impl<V> ArchStorages<V> {
    /// The storages, by id.
    pub closed spec fn spec_storages(&self) -> Seq<ArchEntityStorage<V>> {
        self.storages@
    }

    /// The key of storage `i`.
    pub open spec fn key_at(&self, i: int) -> nat {
        self.spec_storages()[i].columns().spec_key()
    }

    /// Every storage is well formed, the keys kept beside them are theirs, and
    /// no two storages have the same key.
    pub closed spec fn wf(&self) -> bool {
        &&& self.pkeys@.len() == self.storages@.len()
        &&& forall|i: int| 0 <= i < self.storages@.len() ==> (#[trigger] self.storages@[i]).wf()
        &&& forall|i: int|
            0 <= i < self.storages@.len() ==> (#[trigger] self.pkeys@[i]).spec_value()
                == self.storages@[i].columns().spec_key()
        &&& forall|i: int, j: int|
            0 <= i < j < self.pkeys@.len() ==> (#[trigger] self.pkeys@[i]).spec_value() != (
            #[trigger] self.pkeys@[j]).spec_value()
    }

    /// No two storages have the same key.
    pub open spec fn keys_unique(&self) -> bool {
        forall|i: int, j: int|
            0 <= i < j < self.spec_storages().len() ==> #[trigger] self.key_at(i) != #[trigger] self.key_at(j)
    }

    /// What a well-formed catalog holds.
    pub proof fn lemma_wf(&self)
        requires
            self.wf(),
        ensures
            self.keys_unique(),
            forall|i: int| 0 <= i < self.spec_storages().len() ==> (#[trigger] self.spec_storages()[i]).wf(),
    {
        assert forall|i: int, j: int| 0 <= i < j < self.spec_storages().len() implies #[trigger] self.key_at(i)
            != #[trigger] self.key_at(j) by {
            assert(self.pkeys@[i].spec_value() != self.pkeys@[j].spec_value());
        }
    }

    /// A catalog with no storage.
    pub fn new() -> (r: ArchStorages<V>)
        ensures
            r.wf(),
            r.spec_storages().len() == 0,
    {
        ArchStorages { storages: Vec::new(), pkeys: Vec::new() }
    }

    /// The number of storages.
    pub fn len(&self) -> (r: usize)
        ensures
            r == self.spec_storages().len(),
    {
        self.storages.len()
    }

    /// Storage `id`, where there is one.
    pub fn get_storage(&self, id: ArchStorageId) -> (r: Option<&ArchEntityStorage<V>>)
        ensures
            r.is_some() == (id.0 < self.spec_storages().len()),
            r.is_some() ==> *r.unwrap() == self.spec_storages()[id.0 as int],
    {
        if id.0 < self.storages.len() {
            Some(&self.storages[id.0])
        } else {
            None
        }
    }

    /// The id of the storage with key `pkey`, where there is one.
    pub fn find_exact(&self, pkey: PrimeArchKey) -> (r: Option<ArchStorageId>)
        requires
            self.wf(),
        ensures
            r.is_some() == (exists|i: int| 0 <= i < self.spec_storages().len() && self.key_at(i) == pkey.spec_value()),
            r.is_some() ==> r.unwrap().0 < self.spec_storages().len() && self.key_at(r.unwrap().0 as int)
                == pkey.spec_value(),
    {
        let mut i: usize = 0;
        while i < self.pkeys.len()
            invariant
                self.wf(),
                0 <= i <= self.spec_storages().len(),
                forall|j: int| 0 <= j < i ==> self.key_at(j) != pkey.spec_value(),
            decreases self.spec_storages().len() - i,
        {
            if self.pkeys[i].is_exact(pkey) {
                assert(self.key_at(i as int) == pkey.spec_value());
                return Some(ArchStorageId(i));
            }
            i = i + 1;
        }
        None
    }

    /// The storage with key `pkey`, where there is one.
    pub fn get_storage_with_exact_archetype(&self, pkey: PrimeArchKey) -> (r: Option<&ArchEntityStorage<V>>)
        requires
            self.wf(),
        ensures
            r.is_some() == (exists|i: int| 0 <= i < self.spec_storages().len() && self.key_at(i) == pkey.spec_value()),
            r.is_some() ==> r.unwrap().columns().spec_key() == pkey.spec_value(),
    {
        match self.find_exact(pkey) {
            Some(id) => Some(&self.storages[id.0]),
            None => None,
        }
    }

    /// Whether a storage has key `pkey`.
    pub fn is_archetype_stored(&self, pkey: PrimeArchKey) -> (r: bool)
        requires
            self.wf(),
        ensures
            r == (exists|i: int| 0 <= i < self.spec_storages().len() && self.key_at(i) == pkey.spec_value()),
    {
        self.find_exact(pkey).is_some()
    }

    /// The ids of the storages whose archetype holds every component of the
    /// archetype with key `pkey`, in the order the storages were made.
    pub fn iter_storages_with_matching_archetype(&self, pkey: PrimeArchKey) -> (r: Vec<ArchStorageId>)
        requires
            self.wf(),
            pkey.spec_value() > 0,
        ensures
            r@ == matching_ids(self.spec_storages(), pkey.spec_value(), self.spec_storages().len() as int),
    {
        let mut out: Vec<ArchStorageId> = Vec::new();
        let mut i: usize = 0;
        while i < self.storages.len()
            invariant
                self.wf(),
                pkey.spec_value() > 0,
                0 <= i <= self.spec_storages().len(),
                out@ == matching_ids(self.spec_storages(), pkey.spec_value(), i as int),
            decreases self.spec_storages().len() - i,
        {
            if self.pkeys[i].is_supset_of(pkey) {
                out.push(ArchStorageId(i));
            }
            i = i + 1;
        }
        out
    }

    /// Makes a storage with no rows for the archetype that `arch_info`
    /// describes, where no storage has its key yet. Gives its id, or `None`
    /// where one has, or where the storage cannot be made.
    pub fn store_new_archetype_checked(&mut self, comp_factory: &ComponentFactory, arch_info: &ArchetypeInfo) -> (r:
        Option<ArchStorageId>)
        requires
            old(self).wf(),
            comp_factory.wf(),
            arch_info.wf(),
        ensures
            final(self).wf(),
            r.is_none() ==> *final(self) == *old(self),
            r.is_some() == (!(exists|i: int| 0 <= i < old(self).spec_storages().len() && old(self).key_at(i)
                == arch_info.spec_key()) && storable(comp_factory, arch_info)),
            r.is_some() ==> new_storage_added(old(self), final(self), arch_info) && r.unwrap().0
                == old(self).spec_storages().len(),
    {
        if self.is_archetype_stored(arch_info.prime_key()) {
            return None;
        }
        match ArchEntityStorage::new(comp_factory, arch_info) {
            Some(storage) => {
                self.storages.push(storage);
                self.pkeys.push(arch_info.prime_key());
                proof {
                    assert forall|i: int, j: int| 0 <= i < j < self.pkeys@.len() implies (
                    #[trigger] self.pkeys@[i]).spec_value() != (#[trigger] self.pkeys@[j]).spec_value() by {
                        if j == self.pkeys@.len() - 1 {
                            assert(old(self).key_at(i) == self.key_at(i));
                            assert(old(self).pkeys@[i] == self.pkeys@[i]);
                        } else {
                            assert(old(self).pkeys@[i] == self.pkeys@[i]);
                            assert(old(self).pkeys@[j] == self.pkeys@[j]);
                        }
                    }
                    assert(self.spec_storages().subrange(0, old(self).spec_storages().len() as int)
                        =~= old(self).spec_storages());
                }
                Some(ArchStorageId(self.storages.len() - 1))
            },
            None => None,
        }
    }

    /// The id of the storage for the archetype that `arch_info` describes,
    /// made with no rows if there is none yet; `None` where it cannot be made.
    pub fn get_mut_or_create_storage_with_exact_archetype(&mut self, comp_factory: &ComponentFactory, arch_info: &ArchetypeInfo) -> (r:
        Option<ArchStorageId>)
        requires
            old(self).wf(),
            comp_factory.wf(),
            arch_info.wf(),
        ensures
            final(self).wf(),
            r.is_none() ==> *final(self) == *old(self),
            r.is_some() ==> r.unwrap().0 < final(self).spec_storages().len() && final(self).key_at(r.unwrap().0 as int)
                == arch_info.spec_key(),
            r.is_some() && r.unwrap().0 < old(self).spec_storages().len() ==> *final(self) == *old(self),
            r.is_some() && r.unwrap().0 >= old(self).spec_storages().len() ==> new_storage_added(old(self), final(self), arch_info),
            (exists|i: int| 0 <= i < old(self).spec_storages().len() && old(self).key_at(i) == arch_info.spec_key())
                ==> r.is_some() && r.unwrap().0 < old(self).spec_storages().len(),
            storable(comp_factory, arch_info) ==> r.is_some(),
    {
        match self.find_exact(arch_info.prime_key()) {
            Some(id) => Some(id),
            None => self.store_new_archetype_checked(comp_factory, arch_info),
        }
    }
}

/// The storage for `arch_info` can be made: no component twice, not too many
/// of them, each registered.
pub open spec fn storable(comp_factory: &ComponentFactory, arch_info: &ArchetypeInfo) -> bool {
    &&& arch_info.ids().no_duplicates()
    &&& arch_info.ids().len() <= MAX_COMPS_PER_ARCH
    &&& forall|j: int| 0 <= j < arch_info.ids().len() ==> #[trigger] arch_info.ids()[j] < comp_factory.infos().len()
}

/// `after` is `before` with one more storage, with no rows, for `arch_info`.
pub open spec fn new_storage_added<V>(before: &ArchStorages<V>, after: &ArchStorages<V>, arch_info: &ArchetypeInfo) -> bool {
    let n = before.spec_storages().len();
    &&& after.spec_storages().len() == n + 1
    &&& after.spec_storages().subrange(0, n as int) == before.spec_storages()
    &&& after.spec_storages()[n as int].wf()
    &&& after.spec_storages()[n as int].spec_len() == 0
    &&& after.spec_storages()[n as int].columns().ids() == arch_info.ids()
    &&& after.spec_storages()[n as int].columns().spec_key() == arch_info.spec_key()
}

/// The ids, among the first `n` storages, of those whose key is a multiple of
/// `required`.
pub open spec fn matching_ids<V>(storages: Seq<ArchEntityStorage<V>>, required: nat, n: int) -> Seq<ArchStorageId>
    decreases n,
{
    if n <= 0 {
        Seq::empty()
    } else {
        let rest = matching_ids(storages, required, n - 1);
        if storages[n - 1].columns().spec_key() % required == 0 {
            rest.push(ArchStorageId((n - 1) as usize))
        } else {
            rest
        }
    }
}

/// `after` is `before` with one more row, for `entity`, holding the values
/// of `bundle`.
pub open spec fn row_appended<V>(
    before: ArchEntityStorage<V>,
    after: ArchEntityStorage<V>,
    entity: EntityId,
    bundle: Seq<(ComponentId, V)>,
) -> bool {
    &&& after.wf()
    &&& after.spec_len() == before.spec_len() + 1
    &&& after.spec_entities() == before.spec_entities().push(entity)
    &&& after.columns().ids() == before.columns().ids()
    &&& after.columns().spec_key() == before.columns().spec_key()
    &&& forall|row: nat, c: nat|
        row < before.spec_len() ==> #[trigger] after.columns().spec_get(row, c) == before.columns().spec_get(row, c)
    &&& forall|c: nat|
        before.columns().ids().contains(c) ==> #[trigger] after.columns().spec_get(before.spec_len(), c)
            == Some(bundle_value(bundle, c))
    &&& forall|c: nat|
        !before.columns().ids().contains(c) ==> #[trigger] after.columns().spec_get(before.spec_len(), c)
            == None::<V>
}

/// `after` is `before` with one more row, for `entity`; the rows it had keep
/// their values.
pub open spec fn row_pushed<V>(before: ArchEntityStorage<V>, after: ArchEntityStorage<V>, entity: EntityId) -> bool {
    &&& after.wf()
    &&& after.spec_len() == before.spec_len() + 1
    &&& after.spec_entities() == before.spec_entities().push(entity)
    &&& after.columns().ids() == before.columns().ids()
    &&& after.columns().spec_key() == before.columns().spec_key()
    &&& forall|row: nat, c: nat|
        row < before.spec_len() ==> #[trigger] after.columns().spec_get(row, c) == before.columns().spec_get(row, c)
}

/// `after` is `before` without row `index`, whose place the last row took.
pub open spec fn row_swap_removed<V>(before: ArchEntityStorage<V>, after: ArchEntityStorage<V>, index: nat) -> bool {
    &&& after.wf()
    &&& after.spec_len() + 1 == before.spec_len()
    &&& after.spec_entities() == before.spec_entities().update(index as int, before.spec_entities().last()).drop_last()
    &&& after.columns().ids() == before.columns().ids()
    &&& after.columns().spec_key() == before.columns().spec_key()
    &&& forall|c: nat|
        index < after.spec_len() ==> #[trigger] after.columns().spec_get(index, c) == before.columns().spec_get(
            (before.spec_len() - 1) as nat,
            c,
        )
    &&& forall|row: nat, c: nat|
        row < after.spec_len() && row != index ==> #[trigger] after.columns().spec_get(row, c)
            == before.columns().spec_get(row, c)
}

/// `after` is `before` with the value of component `comp` at row `index` set
/// to `value`.
pub open spec fn cell_set<V>(before: ArchEntityStorage<V>, after: ArchEntityStorage<V>, index: nat, comp: nat, value: V) -> bool {
    &&& after.wf()
    &&& after.spec_entities() == before.spec_entities()
    &&& after.columns().ids() == before.columns().ids()
    &&& after.columns().spec_key() == before.columns().spec_key()
    &&& after.spec_len() == before.spec_len()
    &&& after.columns().spec_get(index, comp) == Some(value)
    &&& forall|row: nat, c: nat|
        (row != index || c != comp) ==> #[trigger] after.columns().spec_get(row, c) == before.columns().spec_get(row, c)
}

impl<V> ArchStorages<V> {
    /// Adds a row for `entity` to storage `id`, holding the values of
    /// `bundle`, where the bundle's key is the storage's key.
    pub fn store_entity(&mut self, id: ArchStorageId, entity: EntityId, bundle: Vec<(ComponentId, V)>) -> (r:
        Option<ArchStorageIndex>)
        requires
            old(self).wf(),
            id.0 < old(self).spec_storages().len(),
            old(self).spec_storages()[id.0 as int].spec_len() < usize::MAX,
        ensures
            final(self).wf(),
            r.is_some() == (valid_ids(bundle_ids(bundle@)) && key_of(bundle_ids(bundle@)) == old(self).key_at(id.0 as int)),
            r.is_none() ==> final(self).spec_storages() == old(self).spec_storages(),
            r.is_some() ==> {
                &&& r.unwrap().0 == old(self).spec_storages()[id.0 as int].spec_len()
                &&& final(self).spec_storages().len() == old(self).spec_storages().len()
                &&& forall|i: int| 0 <= i < old(self).spec_storages().len() && i != id.0 ==> #[trigger] final(self).spec_storages()[i]
                    == old(self).spec_storages()[i]
                &&& row_appended(old(self).spec_storages()[id.0 as int], final(self).spec_storages()[id.0 as int], entity, bundle@)
            },
    {
        let ghost b = bundle@;
        let r = self.storages[id.0].store_entity(entity, bundle);
        proof {
            if r.is_some() {
                assert(row_appended(old(self).spec_storages()[id.0 as int], self.spec_storages()[id.0 as int], entity, b));
            }
            assert forall|i: int| 0 <= i < self.storages@.len() implies (#[trigger] self.pkeys@[i]).spec_value()
                == self.storages@[i].columns().spec_key() by {
                assert(old(self).pkeys@[i] == self.pkeys@[i]);
            }
            assert(forall|i: int| 0 <= i < self.spec_storages().len() ==> #[trigger] self.key_at(i) == old(self).key_at(i));
        }
        r
    }

    /// Removes row `index` of storage `id`, moving the last row into its
    /// place. Gives the handle of the entity that moved, or `None` where the
    /// removed row was the last one.
    pub fn swap_remove(&mut self, id: ArchStorageId, index: ArchStorageIndex) -> (r: Option<EntityId>)
        requires
            old(self).wf(),
            id.0 < old(self).spec_storages().len(),
            index.0 < old(self).spec_storages()[id.0 as int].spec_len(),
        ensures
            final(self).wf(),
            final(self).spec_storages().len() == old(self).spec_storages().len(),
            forall|i: int| 0 <= i < old(self).spec_storages().len() && i != id.0 ==> #[trigger] final(self).spec_storages()[i]
                == old(self).spec_storages()[i],
            row_swap_removed(old(self).spec_storages()[id.0 as int], final(self).spec_storages()[id.0 as int], index.0 as nat),
            r.is_some() == (index.0 < final(self).spec_storages()[id.0 as int].spec_len()),
            r.is_some() ==> r.unwrap() == old(self).spec_storages()[id.0 as int].spec_entities().last(),
    {
        let r = self.storages[id.0].swap_remove(index);
        proof {
            assert forall|i: int| 0 <= i < self.storages@.len() implies (#[trigger] self.pkeys@[i]).spec_value()
                == self.storages@[i].columns().spec_key() by {
                assert(old(self).pkeys@[i] == self.pkeys@[i]);
            }
            assert(forall|i: int| 0 <= i < self.spec_storages().len() ==> #[trigger] self.key_at(i) == old(self).key_at(i));
        }
        r
    }

    /// The value of component `comp_id` at row `index` of storage `id`, to be
    /// changed in place, where all three exist.
    pub fn get_component_mut(&mut self, id: ArchStorageId, index: ArchStorageIndex, comp_id: ComponentId) -> (r: Option<&mut V>)
        requires
            old(self).wf(),
        ensures
            r.is_some() == (id.0 < old(self).spec_storages().len() && old(self).spec_storages()[id.0 as int].columns().spec_get(
                index.0 as nat,
                comp_id.0 as nat,
            ).is_some()),
            r.is_none() ==> *final(self) == *old(self),
            r.is_some() ==> {
                &&& *r.unwrap() == old(self).spec_storages()[id.0 as int].columns().spec_get(index.0 as nat, comp_id.0 as nat).unwrap()
                &&& final(self).wf()
                &&& final(self).spec_storages().len() == old(self).spec_storages().len()
                &&& forall|i: int| 0 <= i < old(self).spec_storages().len() && i != id.0 ==> #[trigger] final(self).spec_storages()[i]
                    == old(self).spec_storages()[i]
                &&& cell_set(
                    old(self).spec_storages()[id.0 as int],
                    final(self).spec_storages()[id.0 as int],
                    index.0 as nat,
                    comp_id.0 as nat,
                    *final(r.unwrap()),
                )
            },
    {
        if id.0 < self.storages.len() {
            if self.storages[id.0].get_component(index, comp_id).is_some() {
                let r = self.get_component_mut_in(id, index, comp_id);
                Some(r)
            } else {
                None
            }
        } else {
            None
        }
    }

    fn get_component_mut_in(&mut self, id: ArchStorageId, index: ArchStorageIndex, comp_id: ComponentId) -> (r: &mut V)
        requires
            old(self).wf(),
            id.0 < old(self).spec_storages().len(),
            old(self).spec_storages()[id.0 as int].columns().spec_get(index.0 as nat, comp_id.0 as nat).is_some(),
        ensures
            *r == old(self).spec_storages()[id.0 as int].columns().spec_get(index.0 as nat, comp_id.0 as nat).unwrap(),
            final(self).wf(),
            final(self).spec_storages().len() == old(self).spec_storages().len(),
            forall|i: int| 0 <= i < old(self).spec_storages().len() && i != id.0 ==> #[trigger] final(self).spec_storages()[i]
                == old(self).spec_storages()[i],
            cell_set(
                old(self).spec_storages()[id.0 as int],
                final(self).spec_storages()[id.0 as int],
                index.0 as nat,
                comp_id.0 as nat,
                *final(r),
            ),
    {
        let r = self.storages[id.0].get_component_mut_unchecked(index, comp_id);
        r
    }
}

} // verus!
