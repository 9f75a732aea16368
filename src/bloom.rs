//! Bloom filters over byte keys (op hashes, agent-info signatures).
//!
//! The parameters are fixed so that both peers of a round derive the same bit
//! layout from the same keys.
use vstd::prelude::*;
use vstd::wrapping::u64_specs::wrapping_mul;

verus! {

/// Number of bits in every filter.
pub const BLOOM_BITS: u64 = 2048;

/// Number of bit positions each key sets.
pub const BLOOM_HASHES: u64 = 3;

pub const FNV_OFFSET: u64 = 0xcbf2_9ce4_8422_2325;

pub const FNV_PRIME: u64 = 0x0000_0100_0000_01b3;

/// FNV-1a over `key`, starting from state `h`.
pub open spec fn fnv_from(h: u64, key: Seq<u8>) -> u64
    decreases key.len(),
{
    if key.len() == 0 {
        h
    } else {
        fnv_from(wrapping_mul(h ^ (key[0] as u64), FNV_PRIME), key.drop_first())
    }
}

/// The `i`-th bit position of `key`.
pub open spec fn bit_index(key: Seq<u8>, i: u64) -> int {
    (fnv_from((FNV_OFFSET + i) as u64, key) % BLOOM_BITS) as int
}

/// Whether a filter with these bits may hold `key`: all its positions are set.
pub open spec fn bloom_has(bits: Seq<bool>, key: Seq<u8>) -> bool {
    forall|i: u64| i < BLOOM_HASHES ==> #[trigger] bits[bit_index(key, i)]
}

/// Whether bit `j` is one of the positions of `key`.
pub open spec fn sets_bit(key: Seq<u8>, j: int) -> bool {
    exists|i: u64| i < BLOOM_HASHES && #[trigger] bit_index(key, i) == j
}

/// The bits of the filter of exactly `keys`: a bit is set when it is a
/// position of one of them.
pub open spec fn bloom_bits(keys: Seq<Seq<u8>>) -> Seq<bool> {
    Seq::new(
        BLOOM_BITS as nat,
        |j: int| exists|k: int| 0 <= k < keys.len() && #[trigger] sets_bit(keys[k], j),
    )
}

/// The keys, in order, that a filter with these bits surely does not hold.
pub open spec fn not_in(bits: Seq<bool>, keys: Seq<Seq<u8>>) -> Seq<Seq<u8>>
    decreases keys.len(),
{
    if keys.len() == 0 {
        Seq::empty()
    } else {
        let rest = not_in(bits, keys.drop_last());
        if bloom_has(bits, keys.last()) {
            rest
        } else {
            rest.push(keys.last())
        }
    }
}

/// The byte strings of a list of keys.
pub open spec fn key_views(keys: Seq<Vec<u8>>) -> Seq<Seq<u8>> {
    keys.map_values(|k: Vec<u8>| k@)
}

fn hash_with(key: &Vec<u8>, i: u64) -> (r: u64)
    requires
        i < BLOOM_HASHES,
    ensures
        r == fnv_from((FNV_OFFSET + i) as u64, key@),
{
    let mut h: u64 = FNV_OFFSET + i;
    let mut j: usize = 0;
    proof {
        assert(key@.skip(0) =~= key@);
    }
    while j < key.len()
        invariant
            0 <= j <= key@.len(),
            i < BLOOM_HASHES,
            fnv_from((FNV_OFFSET + i) as u64, key@) == fnv_from(h, key@.skip(j as int)),
        decreases key@.len() - j,
    {
        proof {
            assert(key@.skip(j as int).len() > 0);
            assert(key@.skip(j as int)[0] == key@[j as int]);
            assert(key@.skip(j as int).drop_first() =~= key@.skip(j + 1));
        }
        h = (h ^ (key[j] as u64)).wrapping_mul(FNV_PRIME);
        j = j + 1;
    }
    proof {
        assert(key@.skip(j as int).len() == 0);
    }
    h
}

fn index_of(key: &Vec<u8>, i: u64) -> (r: usize)
    requires
        i < BLOOM_HASHES,
    ensures
        r as int == bit_index(key@, i),
        r < BLOOM_BITS,
{
    (hash_with(key, i) % BLOOM_BITS) as usize
}

/// A bloom filter of `BLOOM_BITS` bits.
#[derive(Debug, PartialEq, Eq)]
pub struct Bloom {
    bits: Vec<bool>,
}

impl View for Bloom {
    type V = Seq<bool>;

    closed spec fn view(&self) -> Seq<bool> {
        self.bits@
    }
}

impl Bloom {
    #[verifier::type_invariant]
    spec fn inv(&self) -> bool {
        self.bits@.len() == BLOOM_BITS
    }

    pub open spec fn wf(&self) -> bool {
        self@.len() == BLOOM_BITS
    }

    /// The filter that holds nothing: every bit clear.
    pub fn empty() -> (r: Bloom)
        ensures
            r.wf(),
            forall|j: int| 0 <= j < BLOOM_BITS ==> !#[trigger] r@[j],
    {
        let mut bits: Vec<bool> = Vec::new();
        let mut j: u64 = 0;
        while j < BLOOM_BITS
            invariant
                j <= BLOOM_BITS,
                bits@.len() == j,
                forall|k: int| 0 <= k < j ==> !#[trigger] bits@[k],
            decreases BLOOM_BITS - j,
        {
            bits.push(false);
            j = j + 1;
        }
        Bloom { bits }
    }

    /// A second filter with the same bits.
    pub fn duplicate(&self) -> (r: Bloom)
        ensures
            r@ == self@,
    {
        proof {
            use_type_invariant(self);
        }
        let bits = self.bits.clone();
        proof {
            assert(bits@ =~= self@);
        }
        Bloom { bits }
    }

    /// The bits of the filter, one byte per bit.
    pub fn to_bits(&self) -> (r: Vec<bool>)
        ensures
            r@ == self@,
    {
        let r = self.bits.clone();
        proof {
            assert(r@ =~= self@);
        }
        r
    }

    /// A filter with the given bits; `None` unless there are `BLOOM_BITS` of them.
    pub fn from_bits(bits: Vec<bool>) -> (r: Option<Bloom>)
        ensures
            match r {
                Some(b) => bits@.len() == BLOOM_BITS && b@ == bits@,
                None => bits@.len() != BLOOM_BITS,
            },
    {
        if bits.len() as u64 == BLOOM_BITS {
            Some(Bloom { bits })
        } else {
            None
        }
    }

    /// Every filter has `BLOOM_BITS` bits.
    pub fn bit_count(&self) -> (r: usize)
        ensures
            r == self@.len(),
            self.wf(),
    {
        proof {
            use_type_invariant(self);
        }
        self.bits.len()
    }

    /// Whether every bit is clear.
    pub fn is_empty(&self) -> (r: bool)
        ensures
            r == forall|j: int| 0 <= j < self@.len() ==> !#[trigger] self@[j],
    {
        let mut j: usize = 0;
        while j < self.bits.len()
            invariant
                0 <= j <= self@.len(),
                forall|k: int| 0 <= k < j ==> !#[trigger] self@[k],
            decreases self@.len() - j,
        {
            if self.bits[j] {
                return false;
            }
            j = j + 1;
        }
        true
    }

    /// Adds `key`: sets its bit positions and keeps every other bit.
    pub fn insert(&mut self, key: &Vec<u8>)
        ensures
            final(self).wf(),
            final(self)@ == Seq::new(
                BLOOM_BITS as nat,
                |j: int| old(self)@[j] || sets_bit(key@, j),
            ),
    {
        proof {
            use_type_invariant(&*self);
        }
        let mut bits = self.bits.clone();
        proof {
            assert(bits@ =~= old(self)@);
        }
        let mut i: u64 = 0;
        while i < BLOOM_HASHES
            invariant
                bits@.len() == BLOOM_BITS,
                old(self)@.len() == BLOOM_BITS,
                i <= BLOOM_HASHES,
                forall|j: int|
                    0 <= j < BLOOM_BITS ==> #[trigger] bits@[j] == (old(self)@[j] || exists|t: u64|
                        t < i && #[trigger] bit_index(key@, t) == j),
            decreases BLOOM_HASHES - i,
        {
            let idx = index_of(key, i);
            let ghost before = bits@;
            bits.set(idx, true);
            proof {
                assert forall|j: int| 0 <= j < BLOOM_BITS implies #[trigger] bits@[j] == (old(self)@[j]
                    || exists|t: u64| t < i + 1 && #[trigger] bit_index(key@, t) == j) by {
                    if j == idx as int {
                        assert(bit_index(key@, i) == j);
                    } else {
                        assert(bits@[j] == before[j]);
                        if exists|t: u64| t < i + 1 && #[trigger] bit_index(key@, t) == j {
                            let t = choose|t: u64| t < i + 1 && #[trigger] bit_index(key@, t) == j;
                            assert(t != i);
                            assert(t < i && bit_index(key@, t) == j);
                        }
                    }
                }
            }
            i = i + 1;
        }
        proof {
            assert(bits@ =~= Seq::new(BLOOM_BITS as nat, |j: int| old(self)@[j] || sets_bit(key@, j)));
        }
        *self = Bloom { bits };
    }

    /// Whether the filter may hold `key`. A key that was inserted always may.
    pub fn may_contain(&self, key: &Vec<u8>) -> (r: bool)
        ensures
            r == bloom_has(self@, key@),
    {
        proof {
            use_type_invariant(self);
        }
        let mut i: u64 = 0;
        while i < BLOOM_HASHES
            invariant
                self.wf(),
                i <= BLOOM_HASHES,
                forall|t: u64| t < i ==> #[trigger] self@[bit_index(key@, t)],
            decreases BLOOM_HASHES - i,
        {
            let idx = index_of(key, i);
            if !self.bits[idx] {
                return false;
            }
            i = i + 1;
        }
        true
    }

    /// The filter of exactly a list of keys.
    pub fn from_keys(keys: &Vec<Vec<u8>>) -> (r: Bloom)
        ensures
            r.wf(),
            r@ == bloom_bits(key_views(keys@)),
            forall|k: int| 0 <= k < keys@.len() ==> bloom_has(r@, #[trigger] keys@[k]@),
    {
        let ghost ks = key_views(keys@);
        let mut b = Bloom::empty();
        let mut n: usize = 0;
        proof {
            assert(b@ =~= bloom_bits(ks.take(0)));
        }
        while n < keys.len()
            invariant
                ks == key_views(keys@),
                b.wf(),
                0 <= n <= keys@.len(),
                b@ == bloom_bits(ks.take(n as int)),
            decreases keys@.len() - n,
        {
            let ghost before = b@;
            b.insert(&keys[n]);
            proof {
                let prev = ks.take(n as int);
                let next = ks.take(n + 1);
                assert(ks[n as int] == keys@[n as int]@);
                assert forall|j: int| 0 <= j < BLOOM_BITS implies #[trigger] b@[j] == bloom_bits(next)[j] by {
                    if exists|k: int| 0 <= k < next.len() && #[trigger] sets_bit(next[k], j) {
                        let k = choose|k: int| 0 <= k < next.len() && #[trigger] sets_bit(next[k], j);
                        if k < n {
                            assert(prev[k] == next[k]);
                            assert(before[j]);
                        } else {
                            assert(next[k] == keys@[n as int]@);
                        }
                    }
                    if before[j] {
                        let k = choose|k: int| 0 <= k < prev.len() && #[trigger] sets_bit(prev[k], j);
                        assert(next[k] == prev[k]);
                    }
                    if sets_bit(keys@[n as int]@, j) {
                        assert(next[n as int] == keys@[n as int]@);
                    }
                }
                assert(b@ =~= bloom_bits(next));
            }
            n = n + 1;
        }
        proof {
            assert(ks.take(n as int) =~= ks);
            lemma_bloom_bits_hold(ks);
            assert forall|k: int| 0 <= k < keys@.len() implies bloom_has(b@, #[trigger] keys@[k]@) by {
                assert(ks[k] == keys@[k]@);
            }
        }
        b
    }

    /// The keys, in order, that the filter surely does not hold: what its
    /// sender is missing.
    pub fn missing_from(&self, keys: &Vec<Vec<u8>>) -> (r: Vec<Vec<u8>>)
        ensures
            key_views(r@) == not_in(self@, key_views(keys@)),
    {
        proof {
            use_type_invariant(self);
        }
        let mut out: Vec<Vec<u8>> = Vec::new();
        let mut n: usize = 0;
        proof {
            assert(key_views(keys@).take(0) =~= Seq::<Seq<u8>>::empty());
            assert(key_views(out@) =~= Seq::<Seq<u8>>::empty());
        }
        while n < keys.len()
            invariant
                self.wf(),
                0 <= n <= keys@.len(),
                key_views(out@) == not_in(self@, key_views(keys@).take(n as int)),
            decreases keys@.len() - n,
        {
            let ghost prefix = key_views(keys@).take(n + 1);
            proof {
                assert(prefix.drop_last() =~= key_views(keys@).take(n as int));
                assert(prefix.last() == keys@[n as int]@);
            }
            if !self.may_contain(&keys[n]) {
                let k = keys[n].clone();
                proof {
                    assert(k@ =~= keys@[n as int]@);
                }
                let ghost before = out@;
                out.push(k);
                proof {
                    assert(key_views(out@) =~= key_views(before).push(k@));
                }
            }
            n = n + 1;
        }
        proof {
            assert(key_views(keys@).take(n as int) =~= key_views(keys@));
        }
        out
    }
}

/// A filter built from a set of keys reports none of them missing.
pub proof fn lemma_round_trip(bits: Seq<bool>, keys: Seq<Seq<u8>>)
    requires
        forall|k: int| 0 <= k < keys.len() ==> bloom_has(bits, #[trigger] keys[k]),
    ensures
        not_in(bits, keys) == Seq::<Seq<u8>>::empty(),
    decreases keys.len(),
{
    if keys.len() > 0 {
        let rest = keys.drop_last();
        assert forall|k: int| 0 <= k < rest.len() implies bloom_has(bits, #[trigger] rest[k]) by {
            assert(rest[k] == keys[k]);
        }
        lemma_round_trip(bits, rest);
        assert(bloom_has(bits, keys[keys.len() - 1]));
    }
}

/// The filter of exactly a set of keys holds each of them.
pub proof fn lemma_bloom_bits_hold(keys: Seq<Seq<u8>>)
    ensures
        forall|k: int| 0 <= k < keys.len() ==> bloom_has(bloom_bits(keys), #[trigger] keys[k]),
{
    assert forall|k: int| 0 <= k < keys.len() implies bloom_has(bloom_bits(keys), #[trigger] keys[k]) by {
        assert forall|i: u64| i < BLOOM_HASHES implies #[trigger] bloom_bits(keys)[bit_index(keys[k], i)] by {
            let j = bit_index(keys[k], i);
            assert(0 <= j < BLOOM_BITS);
            assert(sets_bit(keys[k], j));
        }
    }
}

/// Bloom round trip: the filter of a set of keys reports none of them missing.
pub proof fn lemma_bloom_round_trip(keys: Seq<Seq<u8>>)
    ensures
        not_in(bloom_bits(keys), keys) == Seq::<Seq<u8>>::empty(),
{
    lemma_bloom_bits_hold(keys);
    lemma_round_trip(bloom_bits(keys), keys);
}

} // verus!
