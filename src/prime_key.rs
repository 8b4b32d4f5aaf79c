use vstd::arithmetic::div_mod::{
    lemma_fundamental_div_mod, lemma_mod_multiples_basic, lemma_mul_mod_noop_left,
};
use vstd::prelude::*;

verus! {

/// The number of primes in the table, and so the number of components a
/// registry can hold.
pub const MAX_COMPONENTS: usize = 30;

/// The `k`-th prime, counting from zero, for `k` below [`MAX_COMPONENTS`].
pub open spec fn spec_kth_prime(k: nat) -> nat {
    if k == 0 { 2 } else if k == 1 { 3 } else if k == 2 { 5 } else if k == 3 { 7 }
    else if k == 4 { 11 } else if k == 5 { 13 } else if k == 6 { 17 } else if k == 7 { 19 }
    else if k == 8 { 23 } else if k == 9 { 29 } else if k == 10 { 31 } else if k == 11 { 37 }
    else if k == 12 { 41 } else if k == 13 { 43 } else if k == 14 { 47 } else if k == 15 { 53 }
    else if k == 16 { 59 } else if k == 17 { 61 } else if k == 18 { 67 } else if k == 19 { 71 }
    else if k == 20 { 73 } else if k == 21 { 79 } else if k == 22 { 83 } else if k == 23 { 89 }
    else if k == 24 { 97 } else if k == 25 { 101 } else if k == 26 { 103 } else if k == 27 { 107 }
    else if k == 28 { 109 } else if k == 29 { 113 } else { 0 }
}

/// `p` is a prime number.
pub open spec fn is_prime(p: nat) -> bool {
    &&& p > 1
    &&& forall|d: nat| 1 < d < p ==> #[trigger] (p % d) != 0
}

/// No entry of the table has a divisor `d` with `1 < d < p`.
spec fn table_divisor_free(d: u8) -> bool {
    &&& (1 < d && d < 2 ==> 2u8 % d != 0)
    &&& (1 < d && d < 3 ==> 3u8 % d != 0)
    &&& (1 < d && d < 5 ==> 5u8 % d != 0)
    &&& (1 < d && d < 7 ==> 7u8 % d != 0)
    &&& (1 < d && d < 11 ==> 11u8 % d != 0)
    &&& (1 < d && d < 13 ==> 13u8 % d != 0)
    &&& (1 < d && d < 17 ==> 17u8 % d != 0)
    &&& (1 < d && d < 19 ==> 19u8 % d != 0)
    &&& (1 < d && d < 23 ==> 23u8 % d != 0)
    &&& (1 < d && d < 29 ==> 29u8 % d != 0)
    &&& (1 < d && d < 31 ==> 31u8 % d != 0)
    &&& (1 < d && d < 37 ==> 37u8 % d != 0)
    &&& (1 < d && d < 41 ==> 41u8 % d != 0)
    &&& (1 < d && d < 43 ==> 43u8 % d != 0)
    &&& (1 < d && d < 47 ==> 47u8 % d != 0)
    &&& (1 < d && d < 53 ==> 53u8 % d != 0)
    &&& (1 < d && d < 59 ==> 59u8 % d != 0)
    &&& (1 < d && d < 61 ==> 61u8 % d != 0)
    &&& (1 < d && d < 67 ==> 67u8 % d != 0)
    &&& (1 < d && d < 71 ==> 71u8 % d != 0)
    &&& (1 < d && d < 73 ==> 73u8 % d != 0)
    &&& (1 < d && d < 79 ==> 79u8 % d != 0)
    &&& (1 < d && d < 83 ==> 83u8 % d != 0)
    &&& (1 < d && d < 89 ==> 89u8 % d != 0)
    &&& (1 < d && d < 97 ==> 97u8 % d != 0)
    &&& (1 < d && d < 101 ==> 101u8 % d != 0)
    &&& (1 < d && d < 103 ==> 103u8 % d != 0)
    &&& (1 < d && d < 107 ==> 107u8 % d != 0)
    &&& (1 < d && d < 109 ==> 109u8 % d != 0)
    &&& (1 < d && d < 113 ==> 113u8 % d != 0)
}

proof fn lemma_table_divisors()
    ensures
        forall|d: u8| #[trigger] table_divisor_free(d),
{
    assert forall|d: u8| #[trigger] table_divisor_free(d) by {
        assert({
            &&& (1 < d && d < 2 ==> 2u8 % d != 0)
            &&& (1 < d && d < 3 ==> 3u8 % d != 0)
            &&& (1 < d && d < 5 ==> 5u8 % d != 0)
            &&& (1 < d && d < 7 ==> 7u8 % d != 0)
            &&& (1 < d && d < 11 ==> 11u8 % d != 0)
            &&& (1 < d && d < 13 ==> 13u8 % d != 0)
            &&& (1 < d && d < 17 ==> 17u8 % d != 0)
            &&& (1 < d && d < 19 ==> 19u8 % d != 0)
            &&& (1 < d && d < 23 ==> 23u8 % d != 0)
            &&& (1 < d && d < 29 ==> 29u8 % d != 0)
            &&& (1 < d && d < 31 ==> 31u8 % d != 0)
            &&& (1 < d && d < 37 ==> 37u8 % d != 0)
            &&& (1 < d && d < 41 ==> 41u8 % d != 0)
            &&& (1 < d && d < 43 ==> 43u8 % d != 0)
            &&& (1 < d && d < 47 ==> 47u8 % d != 0)
            &&& (1 < d && d < 53 ==> 53u8 % d != 0)
            &&& (1 < d && d < 59 ==> 59u8 % d != 0)
            &&& (1 < d && d < 61 ==> 61u8 % d != 0)
            &&& (1 < d && d < 67 ==> 67u8 % d != 0)
            &&& (1 < d && d < 71 ==> 71u8 % d != 0)
            &&& (1 < d && d < 73 ==> 73u8 % d != 0)
            &&& (1 < d && d < 79 ==> 79u8 % d != 0)
            &&& (1 < d && d < 83 ==> 83u8 % d != 0)
            &&& (1 < d && d < 89 ==> 89u8 % d != 0)
            &&& (1 < d && d < 97 ==> 97u8 % d != 0)
            &&& (1 < d && d < 101 ==> 101u8 % d != 0)
            &&& (1 < d && d < 103 ==> 103u8 % d != 0)
            &&& (1 < d && d < 107 ==> 107u8 % d != 0)
            &&& (1 < d && d < 109 ==> 109u8 % d != 0)
            &&& (1 < d && d < 113 ==> 113u8 % d != 0)
        }) by (bit_vector);
    }
}

/// Every entry of the table is prime.
pub proof fn lemma_kth_prime_is_prime(k: nat)
    requires
        k < MAX_COMPONENTS,
    ensures
        is_prime(spec_kth_prime(k)),
{
    let p = spec_kth_prime(k);
    lemma_table_divisors();
    assert forall|d: nat| 1 < d < p implies #[trigger] (p % d) != 0 by {
        let b = d as u8;
        assert(b as nat == d);
        assert(table_divisor_free(b));
    }
}

/// Each prime of the table lies between 2 and 113, and larger indices give
/// larger primes.
pub proof fn lemma_kth_prime_order(i: nat, j: nat)
    requires
        i < MAX_COMPONENTS,
        j < MAX_COMPONENTS,
    ensures
        2 <= spec_kth_prime(i) <= 113,
        i < j ==> spec_kth_prime(i) < spec_kth_prime(j),
        i != j ==> spec_kth_prime(i) != spec_kth_prime(j),
{
}

proof fn lemma_euclid_small(p: nat, a: nat, b: nat)
    requires
        is_prime(p),
        0 < a < p,
        (a * b) % p == 0,
    ensures
        b % p == 0,
    decreases a,
{
    if a == 1 {
        assert(a * b == b) by (nonlinear_arith)
            requires
                a == 1,
        ;
    } else {
        let q = p / a;
        let r = p % a;
        lemma_fundamental_div_mod(p as int, a as int);
        assert(r != 0);
        let m = (a * b) / p;
        lemma_fundamental_div_mod((a * b) as int, p as int);
        assert(a * b == p * m);
        assert(r * b == p * b - q * (a * b)) by (nonlinear_arith)
            requires
                p == a * q + r,
        ;
        assert(r * b == (b - q * m) * p) by (nonlinear_arith)
            requires
                r * b == p * b - q * (a * b),
                a * b == p * m,
        ;
        lemma_mod_multiples_basic(b - q * m, p as int);
        lemma_euclid_small(p, r, b);
    }
}

/// A prime that divides a product divides one of its factors.
pub proof fn lemma_euclid(p: nat, x: nat, y: nat)
    requires
        is_prime(p),
        (x * y) % p == 0,
    ensures
        x % p == 0 || y % p == 0,
{
    if x % p != 0 {
        lemma_mul_mod_noop_left(x as int, y as int, p as int);
        lemma_euclid_small(p, x % p, y);
    }
}

/// Every index of `ids` names a slot of the prime table.
pub open spec fn valid_ids(ids: Seq<nat>) -> bool {
    forall|i: int| 0 <= i < ids.len() ==> #[trigger] ids[i] < MAX_COMPONENTS
}

/// The archetype key of a list of component indices: the product of their
/// primes, one factor per entry.
pub open spec fn key_of(ids: Seq<nat>) -> nat
    decreases ids.len(),
{
    if ids.len() == 0 {
        1
    } else {
        key_of(ids.drop_last()) * spec_kth_prime(ids.last())
    }
}

/// The largest key that `n` entries can have.
pub open spec fn max_key(n: nat) -> nat
    decreases n,
{
    if n == 0 {
        1
    } else {
        113 * max_key((n - 1) as nat)
    }
}

/// The key of a list is positive and at most 113 to the power of its length.
pub proof fn lemma_key_bounds(ids: Seq<nat>)
    requires
        valid_ids(ids),
    ensures
        1 <= key_of(ids) <= max_key(ids.len()),
    decreases ids.len(),
{
    if ids.len() > 0 {
        let init = ids.drop_last();
        lemma_key_bounds(init);
        lemma_kth_prime_order(ids.last(), 0);
        let k = key_of(init);
        let p = spec_kth_prime(ids.last());
        let m = max_key(init.len());
        assert(1 <= k * p <= m * 113) by (nonlinear_arith)
            requires
                1 <= k <= m,
                2 <= p <= 113,
        ;
    }
}

/// Up to eighteen components, a key fits in 128 bits.
pub proof fn lemma_key_fits(ids: Seq<nat>)
    requires
        valid_ids(ids),
        ids.len() <= 18,
    ensures
        1 <= key_of(ids) <= u128::MAX,
{
    lemma_key_bounds(ids);
    lemma_max_key_monotonic(ids.len(), 18);
    assert(max_key(18) <= u128::MAX) by {
        reveal_with_fuel(max_key, 19);
    }
}

proof fn lemma_max_key_monotonic(a: nat, b: nat)
    requires
        a <= b,
    ensures
        max_key(a) <= max_key(b),
    decreases b,
{
    if a < b {
        lemma_max_key_monotonic(a, (b - 1) as nat);
    }
}

/// Taking one entry out of a list divides its key by that entry's prime.
pub proof fn lemma_key_remove(ids: Seq<nat>, i: int)
    requires
        0 <= i < ids.len(),
    ensures
        key_of(ids) == key_of(ids.remove(i)) * spec_kth_prime(ids[i]),
    decreases ids.len(),
{
    let last = ids.len() - 1;
    if i < last {
        let init = ids.drop_last();
        lemma_key_remove(init, i);
        assert(ids.remove(i).drop_last() =~= init.remove(i));
        assert(ids.remove(i).last() == ids.last());
        let a = key_of(init.remove(i));
        let p = spec_kth_prime(ids[i]);
        let q = spec_kth_prime(ids.last());
        assert((a * p) * q == (a * q) * p) by (nonlinear_arith);
    } else {
        assert(ids.remove(i) =~= ids.drop_last());
    }
}

/// The prime of a component divides a key exactly when the component is in
/// the list.
pub proof fn lemma_prime_divides_key(ids: Seq<nat>, c: nat)
    requires
        valid_ids(ids),
        c < MAX_COMPONENTS,
    ensures
        key_of(ids) % spec_kth_prime(c) == 0 <==> ids.contains(c),
    decreases ids.len(),
{
    let p = spec_kth_prime(c);
    lemma_kth_prime_order(c, 0);
    if ids.contains(c) {
        let i = choose|i: int| 0 <= i < ids.len() && ids[i] == c;
        lemma_key_remove(ids, i);
        lemma_mod_multiples_basic(key_of(ids.remove(i)) as int, p as int);
    } else if ids.len() == 0 {
        assert(1nat % p == 1);
    } else {
        let init = ids.drop_last();
        let q = spec_kth_prime(ids.last());
        assert(ids.last() != c);
        assert(!init.contains(c)) by {
            if init.contains(c) {
                let j = choose|j: int| 0 <= j < init.len() && init[j] == c;
                assert(ids[j] == c);
            }
        }
        lemma_prime_divides_key(init, c);
        lemma_kth_prime_is_prime(c);
        lemma_kth_prime_is_prime(ids.last());
        lemma_kth_prime_order(c, ids.last());
        if key_of(ids) % p == 0 {
            lemma_euclid(p, key_of(init), q);
            if p < q {
                assert(q % p != 0);
            } else {
                assert(q % p == q) by {
                    vstd::arithmetic::div_mod::lemma_small_mod(q, p);
                }
            }
        }
    }
}

/// The key of `a` is a multiple of the key of `b` exactly when every
/// component of `b` is in `a`, for `b` without repeated components.
pub proof fn lemma_key_divides_iff_subset(a: Seq<nat>, b: Seq<nat>)
    requires
        valid_ids(a),
        valid_ids(b),
        b.no_duplicates(),
    ensures
        key_of(a) % key_of(b) == 0 <==> (forall|x: nat| b.contains(x) ==> a.contains(x)),
    decreases b.len(),
{
    lemma_key_bounds(a);
    lemma_key_bounds(b);
    if key_of(a) % key_of(b) == 0 {
        assert forall|x: nat| b.contains(x) implies a.contains(x) by {
            let j = choose|j: int| 0 <= j < b.len() && b[j] == x;
            lemma_key_remove(b, j);
            let p = spec_kth_prime(x);
            let r = key_of(b.remove(j));
            let t = key_of(a) / key_of(b);
            lemma_fundamental_div_mod(key_of(a) as int, key_of(b) as int);
            assert(key_of(a) == (r * t) * p) by (nonlinear_arith)
                requires
                    key_of(a) == key_of(b) * t,
                    key_of(b) == r * p,
            ;
            lemma_mod_multiples_basic((r * t) as int, p as int);
            lemma_prime_divides_key(a, x);
        }
    }
    if forall|x: nat| b.contains(x) ==> a.contains(x) {
        lemma_subset_key_divides(a, b);
    }
}

proof fn lemma_subset_key_divides(a: Seq<nat>, b: Seq<nat>)
    requires
        valid_ids(a),
        valid_ids(b),
        b.no_duplicates(),
        forall|x: nat| b.contains(x) ==> a.contains(x),
    ensures
        key_of(a) % key_of(b) == 0,
    decreases b.len(),
{
    lemma_key_bounds(b);
    if b.len() == 0 {
        assert(key_of(a) % 1 == 0);
    } else {
        let x = b.last();
        let bi = b.drop_last();
        assert(b.contains(x));
        let i = choose|i: int| 0 <= i < a.len() && a[i] == x;
        let ar = a.remove(i);
        assert forall|y: nat| bi.contains(y) implies ar.contains(y) by {
            let k = choose|k: int| 0 <= k < bi.len() && bi[k] == y;
            assert(b[k] == y);
            assert(y != x);
            assert(a.contains(y));
            let l = choose|l: int| 0 <= l < a.len() && a[l] == y;
            assert(l != i);
            if l < i {
                assert(ar[l] == y);
            } else {
                assert(ar[l - 1] == y);
            }
        }
        assert(valid_ids(ar)) by {
            assert forall|k: int| 0 <= k < ar.len() implies #[trigger] ar[k] < MAX_COMPONENTS by {
                if k < i {
                    assert(ar[k] == a[k]);
                } else {
                    assert(ar[k] == a[k + 1]);
                }
            }
        }
        lemma_subset_key_divides(ar, bi);
        lemma_key_remove(a, i);
        lemma_key_bounds(bi);
        let kb = key_of(bi);
        let t = key_of(ar) / kb;
        lemma_fundamental_div_mod(key_of(ar) as int, kb as int);
        let p = spec_kth_prime(x);
        assert(key_of(a) == (kb * p) * t) by (nonlinear_arith)
            requires
                key_of(a) == key_of(ar) * p,
                key_of(ar) == kb * t,
        ;
        lemma_mod_multiples_basic(t as int, (kb * p) as int);
        assert(t * (kb * p) == (kb * p) * t) by (nonlinear_arith);
    }
}

/// Some component occurs twice in `ids`.
pub open spec fn has_repeat(ids: Seq<nat>, c: nat) -> bool {
    exists|i: int, j: int| 0 <= i < j < ids.len() && ids[i] == c && ids[j] == c
}

/// The square of a component's prime divides a key exactly when the component
/// occurs at least twice in the list.
pub proof fn lemma_square_divides_key(ids: Seq<nat>, c: nat)
    requires
        valid_ids(ids),
        c < MAX_COMPONENTS,
    ensures
        key_of(ids) % (spec_kth_prime(c) * spec_kth_prime(c)) == 0 <==> has_repeat(ids, c),
{
    let p = spec_kth_prime(c);
    lemma_kth_prime_order(c, 0);
    if has_repeat(ids, c) {
        let (i, j) = choose|i: int, j: int| 0 <= i < j < ids.len() && ids[i] == c && ids[j] == c;
        let r = ids.remove(j);
        lemma_key_remove(ids, j);
        assert(r[i] == c);
        lemma_key_remove(r, i);
        let rr = key_of(r.remove(i));
        assert(key_of(ids) == rr * (p * p)) by (nonlinear_arith)
            requires
                key_of(ids) == key_of(r) * p,
                key_of(r) == rr * p,
        ;
        lemma_mod_multiples_basic(rr as int, (p * p) as int);
    }
    if key_of(ids) % (p * p) == 0 {
        let m = key_of(ids) / (p * p);
        lemma_fundamental_div_mod(key_of(ids) as int, (p * p) as int);
        assert(key_of(ids) == (p * m) * p) by (nonlinear_arith)
            requires
                key_of(ids) == (p * p) * m,
        ;
        lemma_mod_multiples_basic((p * m) as int, p as int);
        lemma_prime_divides_key(ids, c);
        let i = choose|i: int| 0 <= i < ids.len() && ids[i] == c;
        let r = ids.remove(i);
        lemma_key_remove(ids, i);
        assert(key_of(r) == p * m) by (nonlinear_arith)
            requires
                key_of(r) * p == (p * m) * p,
                p > 0,
        ;
        assert(valid_ids(r)) by {
            assert forall|k: int| 0 <= k < r.len() implies #[trigger] r[k] < MAX_COMPONENTS by {
                if k < i {
                    assert(r[k] == ids[k]);
                } else {
                    assert(r[k] == ids[k + 1]);
                }
            }
        }
        assert(key_of(r) == m * p) by (nonlinear_arith)
            requires
                key_of(r) == p * m,
        ;
        lemma_mod_multiples_basic(m as int, p as int);
        lemma_prime_divides_key(r, c);
        let k = choose|k: int| 0 <= k < r.len() && r[k] == c;
        if k < i {
            assert(ids[k] == c);
        } else {
            assert(ids[k + 1] == c);
        }
    }
}

/// The `k`-th prime of the table.
pub fn kth_prime(k: usize) -> (r: u128)
    requires
        k < MAX_COMPONENTS,
    ensures
        r == spec_kth_prime(k as nat),
{
    if k == 0 {
        2
    } else if k == 1 {
        3
    } else if k == 2 {
        5
    } else if k == 3 {
        7
    } else if k == 4 {
        11
    } else if k == 5 {
        13
    } else if k == 6 {
        17
    } else if k == 7 {
        19
    } else if k == 8 {
        23
    } else if k == 9 {
        29
    } else if k == 10 {
        31
    } else if k == 11 {
        37
    } else if k == 12 {
        41
    } else if k == 13 {
        43
    } else if k == 14 {
        47
    } else if k == 15 {
        53
    } else if k == 16 {
        59
    } else if k == 17 {
        61
    } else if k == 18 {
        67
    } else if k == 19 {
        71
    } else if k == 20 {
        73
    } else if k == 21 {
        79
    } else if k == 22 {
        83
    } else if k == 23 {
        89
    } else if k == 24 {
        97
    } else if k == 25 {
        101
    } else if k == 26 {
        103
    } else if k == 27 {
        107
    } else if k == 28 {
        109
    } else {
        113
    }
}

/// An archetype key: the product of the primes of the components of an
/// archetype. The empty archetype has the key 1.
#[derive(Clone, Copy, Debug, PartialEq, Eq, Structural)]
pub struct PrimeArchKey {
    /// The product of the primes.
    pub value: u128,
}

impl PrimeArchKey {
    /// The number this key stands for.
    pub open spec fn spec_value(&self) -> nat {
        self.value as nat
    }

    /// The key of the empty archetype.
    pub fn identity() -> (r: PrimeArchKey)
        ensures
            r.spec_value() == 1,
    {
        PrimeArchKey { value: 1 }
    }

    /// The key of the archetype made of the component with index `index` alone.
    pub fn of_component(index: usize) -> (r: PrimeArchKey)
        requires
            index < MAX_COMPONENTS,
        ensures
            r.spec_value() == spec_kth_prime(index as nat),
    {
        PrimeArchKey { value: kth_prime(index) }
    }

    /// The number this key stands for.
    pub fn as_u128(&self) -> (r: u128)
        ensures
            r == self.spec_value(),
    {
        self.value
    }

    /// Adds the components of `other` to this key.
    pub fn merge_with(&mut self, other: PrimeArchKey)
        requires
            old(self).spec_value() * other.spec_value() <= u128::MAX,
        ensures
            final(self).spec_value() == old(self).spec_value() * other.spec_value(),
    {
        self.value = self.value * other.value;
    }

    /// The key of both archetypes together, or `None` where the product does
    /// not fit in 128 bits.
    pub fn checked_merge(&self, other: PrimeArchKey) -> (r: Option<PrimeArchKey>)
        ensures
            self.spec_value() * other.spec_value() <= u128::MAX ==> r == Some(
                PrimeArchKey { value: (self.spec_value() * other.spec_value()) as u128 },
            ),
            self.spec_value() * other.spec_value() > u128::MAX ==> r.is_none(),
    {
        match self.value.checked_mul(other.value) {
            Some(v) => Some(PrimeArchKey { value: v }),
            None => None,
        }
    }

    /// Both keys stand for the same archetype.
    pub fn is_exact(&self, other: PrimeArchKey) -> (r: bool)
        ensures
            r == (self.spec_value() == other.spec_value()),
    {
        self.value == other.value
    }

    /// This key's archetype holds every component of `other`'s archetype.
    pub fn is_supset_of(&self, other: PrimeArchKey) -> (r: bool)
        requires
            other.spec_value() > 0,
        ensures
            r == (self.spec_value() % other.spec_value() == 0),
    {
        self.value % other.value == 0
    }

    /// The square of this key, used to find a component that occurs twice.
    pub fn squared(&self) -> (r: PrimeArchKey)
        requires
            self.spec_value() * self.spec_value() <= u128::MAX,
        ensures
            r.spec_value() == self.spec_value() * self.spec_value(),
    {
        PrimeArchKey { value: self.value * self.value }
    }
}

/// Two lists without repeated components that have the same key hold the
/// same components.
pub proof fn lemma_same_key_same_components(a: Seq<nat>, b: Seq<nat>)
    requires
        valid_ids(a),
        valid_ids(b),
        a.no_duplicates(),
        b.no_duplicates(),
        key_of(a) == key_of(b),
    ensures
        forall|x: nat| a.contains(x) <==> b.contains(x),
{
    lemma_key_bounds(a);
    assert(key_of(a) % key_of(a) == 0) by {
        vstd::arithmetic::div_mod::lemma_mod_self_0(key_of(a) as int);
    }
    lemma_key_divides_iff_subset(a, b);
    lemma_key_divides_iff_subset(b, a);
}

} // verus!
