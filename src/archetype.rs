use crate::component::{id_seq, ComponentId};
use crate::prime_key::{
    has_repeat, key_of, lemma_key_bounds, lemma_kth_prime_order, lemma_square_divides_key,
    spec_kth_prime, valid_ids, PrimeArchKey, MAX_COMPONENTS,
};
use vstd::prelude::*;

verus! {

/// The most components an archetype can have: the largest number for which
/// every product of that many primes of the table fits in 128 bits.
pub const MAX_COMPS_PER_ARCH: usize = 18;

/// The components of an archetype, in the order they were given, and its key.
#[derive(Debug)]
pub struct ArchetypeInfo {
    component_ids: Vec<ComponentId>,
    prime_key: PrimeArchKey,
}

impl ArchetypeInfo {
    /// The numbers of the components, in order.
    pub closed spec fn ids(&self) -> Seq<nat> {
        id_seq(self.component_ids@)
    }

    /// The key this description records.
    pub closed spec fn spec_key(&self) -> nat {
        self.prime_key.spec_value()
    }

    /// Every component is in the prime table and the key is the product of
    /// their primes.
    pub closed spec fn wf(&self) -> bool {
        &&& valid_ids(self.ids())
        &&& self.prime_key.spec_value() == key_of(self.ids())
    }

    /// What a well-formed description holds.
    pub proof fn lemma_wf(&self)
        requires
            self.wf(),
        ensures
            valid_ids(self.ids()),
            self.spec_key() == key_of(self.ids()),
    {
    }

    /// The description of the empty archetype.
    pub fn new() -> (r: ArchetypeInfo)
        ensures
            r.wf(),
            r.ids() == Seq::<nat>::empty(),
    {
        let r = ArchetypeInfo { component_ids: Vec::new(), prime_key: PrimeArchKey::identity() };
        assert(r.ids() =~= Seq::<nat>::empty());
        r
    }

    /// The description of the archetype made of `ids`, in that order, or
    /// `None` where an id lies outside the prime table or the key does not
    /// fit in 128 bits.
    pub fn from_ids(ids: &Vec<ComponentId>) -> (r: Option<ArchetypeInfo>)
        ensures
            r.is_some() == (valid_ids(id_seq(ids@)) && key_of(id_seq(ids@)) <= u128::MAX),
            r.is_some() ==> r.unwrap().wf() && r.unwrap().ids() == id_seq(ids@),
    {
        let mut info = ArchetypeInfo::new();
        let mut i: usize = 0;
        while i < ids.len()
            invariant
                0 <= i <= ids.len(),
                info.wf(),
                info.component_ids@ == ids@.subrange(0, i as int),
                info.ids() == id_seq(ids@.subrange(0, i as int)),
                forall|j: int| 0 <= j < i ==> ids@[j].0 < MAX_COMPONENTS,
            decreases ids.len() - i,
        {
            let id = ids[i];
            let ghost before = info.ids();
            assert(ids@.subrange(0, i as int + 1).drop_last() =~= ids@.subrange(0, i as int));
            if id.0 >= MAX_COMPONENTS {
                proof {
                    assert(id_seq(ids@)[i as int] == id.0);
                }
                return None;
            }
            match info.prime_key.checked_merge(id.prime_key()) {
                Some(k) => {
                    info.component_ids.push(id);
                    info.prime_key = k;
                    proof {
                        let s = ids@.subrange(0, i as int + 1);
                        assert(info.component_ids@ =~= ids@.subrange(0, i as int).push(id));
                        assert(s =~= ids@.subrange(0, i as int).push(id));
                        assert(info.ids() =~= id_seq(s));
                        assert(info.ids() =~= before.push(id.0 as nat));
                        assert(info.ids().drop_last() =~= before);
                    }
                },
                None => {
                    proof {
                        let all = id_seq(ids@);
                        assert(all.subrange(0, i as int) =~= before);
                        assert(all.subrange(0, i as int + 1) =~= before.push(id.0 as nat));
                        assert(before.push(id.0 as nat).drop_last() =~= before);
                        if valid_ids(all) {
                            lemma_key_prefix_le(all, i as int + 1);
                        }
                    }
                    return None;
                },
            }
            i = i + 1;
        }
        assert(ids@.subrange(0, ids@.len() as int) =~= ids@);
        Some(info)
    }

    /// The key of this archetype.
    pub fn prime_key(&self) -> (r: PrimeArchKey)
        ensures
            r.spec_value() == self.spec_key(),
    {
        self.prime_key
    }

    /// The components of this archetype, in order.
    pub fn component_ids(&self) -> (r: &Vec<ComponentId>)
        ensures
            id_seq(r@) == self.ids(),
    {
        &self.component_ids
    }

    /// Whether some component occurs more than once: the square of its prime
    /// then divides the key.
    pub fn check_for_duplicates(&self) -> (r: bool)
        requires
            self.wf(),
        ensures
            r == !self.ids().no_duplicates(),
    {
        let mut i: usize = 0;
        while i < self.component_ids.len()
            invariant
                self.wf(),
                0 <= i <= self.ids().len(),
                forall|j: int| 0 <= j < i ==> !has_repeat(self.ids(), #[trigger] self.ids()[j]),
            decreases self.ids().len() - i,
        {
            let id = self.component_ids[i];
            proof {
                assert(self.ids()[i as int] == id.0);
                lemma_kth_prime_order(id.0 as nat, 0);
                lemma_square_divides_key(self.ids(), id.0 as nat);
                let p = spec_kth_prime(id.0 as nat);
                assert(4 <= p * p <= 113 * 113) by (nonlinear_arith)
                    requires
                        2 <= p <= 113,
                ;
            }
            if self.prime_key.is_supset_of(id.prime_key().squared()) {
                return true;
            }
            i = i + 1;
        }
        proof {
            let s = self.ids();
            assert forall|a: int, b: int| 0 <= a < s.len() && 0 <= b < s.len() && a != b implies s[a]
                != s[b] by {
                if s[a] == s[b] {
                    if a < b {
                        assert(has_repeat(s, s[a]));
                    } else {
                        assert(has_repeat(s, s[b]));
                    }
                }
            }
        }
        false
    }
}

/// The key of a prefix is at most the key of the whole list.
proof fn lemma_key_prefix_le(ids: Seq<nat>, n: int)
    requires
        valid_ids(ids),
        0 <= n <= ids.len(),
    ensures
        key_of(ids.subrange(0, n)) <= key_of(ids),
    decreases ids.len(),
{
    if n == ids.len() {
        assert(ids.subrange(0, n) =~= ids);
    } else {
        let init = ids.drop_last();
        assert(valid_ids(init));
        lemma_key_prefix_le(init, n);
        assert(init.subrange(0, n) =~= ids.subrange(0, n));
        lemma_key_bounds(init);
        lemma_kth_prime_order(ids.last(), 0);
        let k = key_of(init);
        let p = spec_kth_prime(ids.last());
        assert(k <= k * p) by (nonlinear_arith)
            requires
                k >= 1,
                p >= 2,
        ;
    }
}

} // verus!
